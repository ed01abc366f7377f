//! Which network environment the worker runs in, and where it binds.

use crate::text::str_eq;
use vstd::prelude::*;
use vstd::string::*;

verus! {

/// The run environments the worker recognizes.
#[derive(Clone, Copy, Debug, PartialEq, Eq, Structural)]
pub enum Environment {
    Local,
    DockerCompose,
}

impl Environment {
    /// Reads the environment from the optional `APP_ENVIRONMENT` value:
    /// an absent value means local; an unrecognized one is rejected with
    /// a diagnostic line.
    pub fn from_name(value: Option<&str>) -> (r: Result<Environment, String>)
        ensures
            value is None ==> (r matches Ok(e) && e == Environment::Local),
            value matches Some(v) ==> {
                &&& v@ == "local"@ ==> (r matches Ok(e) && e == Environment::Local)
                &&& v@ == "docker-compose"@ ==> (r matches Ok(e) && e == Environment::DockerCompose)
                &&& v@ != "local"@ && v@ != "docker-compose"@ ==> (r matches Err(m) && m@
                    == "Invalid environment "@ + v@
                    + ". Valid values are 'local' or 'docker-compose'"@)
            },
    {
        proof {
            reveal_strlit("local");
            reveal_strlit("docker-compose");
            assert("local"@.len() == 5);
            assert("docker-compose"@.len() == 14);
        }
        match value {
            None => Ok(Environment::Local),
            Some(v) => {
                if str_eq(v, "local") {
                    Ok(Environment::Local)
                } else if str_eq(v, "docker-compose") {
                    Ok(Environment::DockerCompose)
                } else {
                    let mut m = String::from_str("Invalid environment ");
                    m.append(v);
                    m.append(". Valid values are 'local' or 'docker-compose'");
                    Err(m)
                }
            },
        }
    }

    /// The host the worker binds to in this environment.
    pub fn bind_host(&self) -> (r: &'static str)
        ensures
            *self == Environment::Local ==> r@ == "127.0.0.1"@,
            *self == Environment::DockerCompose ==> r@ == "0.0.0.0"@,
    {
        match self {
            Environment::Local => "127.0.0.1",
            Environment::DockerCompose => "0.0.0.0",
        }
    }
}

} // verus!
