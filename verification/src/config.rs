//! The proxy's runtime settings, read from plain pod data: the log level
//! from an annotation, the listening port from the container port named
//! `http`, with fixed fallbacks when the pod cannot be read.

use vstd::prelude::*;
use crate::strmap::StrMap;
use crate::text::str_eq;

verus! {

/// A container port as the pod spec names it.
pub struct PortSpec {
    pub name: Option<String>,
    pub container_port: i32,
}

/// One container's ports.
pub struct ContainerSpec {
    pub ports: Vec<PortSpec>,
}

/// The proxy's runtime settings.
pub struct Config {
    pub port: i32,
    pub log_level: String,
}

/// The first port named `http` in one container's port list, if any.
pub open spec fn spec_first_http_in_ports(ports: Seq<PortSpec>) -> Option<i32>
    decreases ports.len(),
{
    if ports.len() == 0 {
        None
    } else if ports.first().name is Some && ports.first().name->0@ == "http"@ {
        Some(ports.first().container_port)
    } else {
        spec_first_http_in_ports(ports.drop_first())
    }
}

/// The first port named `http` across the containers, in order.
pub open spec fn spec_first_http(containers: Seq<ContainerSpec>) -> Option<i32>
    decreases containers.len(),
{
    if containers.len() == 0 {
        None
    } else {
        match spec_first_http_in_ports(containers.first().ports@) {
            Some(p) => Some(p),
            None => spec_first_http(containers.drop_first()),
        }
    }
}

impl Config {
    /// The port used when the pod spec names none.
    pub fn port_df() -> (p: i32)
        ensures
            p == 30666,
    {
        30666
    }

    /// The settings used when the pod cannot be read at all.
    pub fn default_config() -> (c: Config)
        ensures
            c.port == 30666,
            c.log_level@.len() == 0,
    {
        Config { port: Config::port_df(), log_level: String::new() }
    }

    /// Reads the settings out of pod data.
    pub fn from_pod_data(annotations: &StrMap<String>, containers: &Vec<ContainerSpec>) -> (c:
        Config)
        requires
            annotations.wf(),
        ensures
            c.port == (match spec_first_http(containers@) {
                Some(p) => p,
                None => 30666,
            }),
            (if annotations@.contains_key("pga-log-level"@) {
                c.log_level@ == annotations@["pga-log-level"@]@
            } else {
                c.log_level@.len() == 0
            }),
    {
        let mut cfg = Config::default_config();
        match annotations.get("pga-log-level") {
            Some(level) => {
                cfg.log_level = level.clone();
            },
            None => {},
        }
        match Config::first_http_port(containers) {
            Some(p) => {
                cfg.port = p;
            },
            None => {},
        }
        cfg
    }

    /// The first container port named `http`, scanning the containers and
    /// their ports in order.
    fn first_http_port(containers: &Vec<ContainerSpec>) -> (r: Option<i32>)
        ensures
            r == spec_first_http(containers@),
    {
        let n = containers.len();
        let mut i: usize = 0;
        proof {
            assert(containers@.subrange(0, n as int) =~= containers@);
        }
        while i < n
            invariant
                0 <= i <= n,
                n == containers@.len(),
                spec_first_http(containers@) == spec_first_http(
                    containers@.subrange(i as int, n as int),
                ),
            decreases n - i,
        {
            proof {
                assert(containers@.subrange(i as int, n as int).first() == containers@[i as int]);
                assert(containers@.subrange(i as int, n as int).drop_first() =~= containers@
                    .subrange(i as int + 1, n as int));
            }
            let ports = &containers[i].ports;
            let m = ports.len();
            let mut j: usize = 0;
            proof {
                assert(ports@.subrange(0, m as int) =~= ports@);
            }
            while j < m
                invariant
                    0 <= j <= m,
                    m == ports@.len(),
                    0 <= i < n,
                    n == containers@.len(),
                    ports@ == containers@[i as int].ports@,
                    spec_first_http(containers@) == spec_first_http(
                        containers@.subrange(i as int, n as int),
                    ),
                    containers@.subrange(i as int, n as int).first() == containers@[i as int],
                    spec_first_http_in_ports(containers@[i as int].ports@)
                        == spec_first_http_in_ports(ports@.subrange(j as int, m as int)),
                decreases m - j,
            {
                proof {
                    assert(ports@.subrange(j as int, m as int).first() == ports@[j as int]);
                    assert(ports@.subrange(j as int, m as int).drop_first() =~= ports@.subrange(
                        j as int + 1,
                        m as int,
                    ));
                }
                match &ports[j].name {
                    Some(nm) => {
                        if str_eq(nm.as_str(), "http") {
                            proof {
                                assert(spec_first_http_in_ports(
                                    ports@.subrange(j as int, m as int),
                                ) == Some(ports@[j as int].container_port));
                                assert(spec_first_http(
                                    containers@.subrange(i as int, n as int),
                                ) == Some(ports@[j as int].container_port));
                            }
                            return Some(ports[j].container_port);
                        }
                    },
                    None => {},
                }
                j += 1;
            }
            proof {
                assert(ports@.subrange(m as int, m as int).len() == 0);
            }
            i += 1;
        }
        proof {
            assert(containers@.subrange(n as int, n as int).len() == 0);
        }
        None
    }
}

} // verus!
