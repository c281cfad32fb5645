//! Settings of a run and the two remote locations derived from them.
use vstd::prelude::*;

verus! {

/// Where record files live on the remote host.
pub const RECORD_DIR_PATH: &'static str = "~/deploy-record";

/// How to reach the remote host and where its web container lives.
#[derive(Debug, Clone, PartialEq, Eq)]
pub struct ServerConfig {
    pub addr: String,
    pub username: String,
    pub password: String,
    pub tomcat_path: String,
}

/// The settings of a run.
#[derive(Debug, Clone, PartialEq, Eq)]
pub struct DeployConfig {
    pub server: ServerConfig,
    pub app_name: String,
}

impl Default for ServerConfig {
    fn default() -> (r: ServerConfig)
        ensures
            r.addr@ == "192.168.1.2"@,
            r.username@ == "username"@,
            r.password@ == "password"@,
            r.tomcat_path@ == "/usr/local/tomcat"@,
    {
        ServerConfig {
            addr: String::from_str("192.168.1.2"),
            username: String::from_str("username"),
            password: String::from_str("password"),
            tomcat_path: String::from_str("/usr/local/tomcat"),
        }
    }
}

/// The remote directory the tree is synced into:
/// `<tomcat_path>/webapps//<app_name>`.
pub fn deploy_dir_path(tomcat_path: &str, app_name: &str) -> (r: String)
    ensures
        r@ == tomcat_path@ + "/webapps/"@ + "/"@ + app_name@,
{
    String::from_str(tomcat_path).concat("/webapps/").concat("/").concat(app_name)
}

/// The remote record file of an application:
/// `~/deploy-record/<app_name>.rec`.
pub fn record_file_path(app_name: &str) -> (r: String)
    ensures
        r@ == RECORD_DIR_PATH@ + "/"@ + app_name@ + ".rec"@,
{
    String::from_str(RECORD_DIR_PATH).concat("/").concat(app_name).concat(".rec")
}

} // verus!
