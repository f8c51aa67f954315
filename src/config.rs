use vstd::prelude::*;

verus! {

/// What the proxy is started with: how to run the backend server, where to
/// listen, where the backend listens, and how long to wait before suspending
/// an idle backend.
#[derive(Clone)]
pub struct Config {
    pub server_file: String,
    pub java_path: String,
    pub arguments: Vec<String>,
    pub proxy_port: u16,
    pub server_port: u16,
    pub protocol_ver: i32,
    pub backend_address: String,
    /// Seconds from the last session's end until the backend is suspended.
    pub suspend_timeout: u64,
}

impl Default for Config {
    fn default() -> (r: Config)
        ensures
            r.server_file@ == "./server.jar"@,
            r.java_path@ == "/bin/java"@,
            r.arguments@.len() == 1,
            r.arguments@[0]@ == "nogui"@,
            r.proxy_port == 25565,
            r.server_port == 25575,
            r.protocol_ver == 763,
            r.backend_address@ == "localhost"@,
            r.suspend_timeout == 600,
    {
        let mut arguments: Vec<String> = Vec::new();
        arguments.push("nogui".to_owned());
        Config {
            server_file: "./server.jar".to_owned(),
            java_path: "/bin/java".to_owned(),
            arguments,
            proxy_port: 25565,
            server_port: 25575,
            protocol_ver: 763,
            backend_address: "localhost".to_owned(),
            suspend_timeout: 600,
        }
    }
}

} // verus!
