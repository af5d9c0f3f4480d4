use pingora_ingress::config::{Config, ContainerSpec, PortSpec};
use pingora_ingress::strmap::StrMap;

#[test]
fn defaults_apply_when_the_pod_says_nothing() {
    let annotations: StrMap<String> = StrMap::new();
    let containers: Vec<ContainerSpec> = vec![];
    let cfg = Config::from_pod_data(&annotations, &containers);
    assert_eq!(cfg.port, 30666);
    assert_eq!(cfg.log_level, "");
    assert_eq!(Config::port_df(), 30666);
}

#[test]
fn http_port_and_log_level_are_read() {
    let mut annotations: StrMap<String> = StrMap::new();
    annotations.insert("pga-log-level".to_string(), "debug".to_string());
    annotations.insert("other".to_string(), "x".to_string());
    let containers = vec![ContainerSpec {
        ports: vec![
            PortSpec { name: Some("metrics".to_string()), container_port: 9100 },
            PortSpec { name: Some("http".to_string()), container_port: 8088 },
            PortSpec { name: None, container_port: 1 },
        ],
    }];
    let cfg = Config::from_pod_data(&annotations, &containers);
    assert_eq!(cfg.port, 8088);
    assert_eq!(cfg.log_level, "debug");
}

#[test]
fn the_first_http_port_wins() {
    let annotations: StrMap<String> = StrMap::new();
    let containers = vec![
        ContainerSpec {
            ports: vec![PortSpec { name: Some("http".to_string()), container_port: 1111 }],
        },
        ContainerSpec {
            ports: vec![PortSpec { name: Some("http".to_string()), container_port: 2222 }],
        },
    ];
    let cfg = Config::from_pod_data(&annotations, &containers);
    assert_eq!(cfg.port, 1111);
}
