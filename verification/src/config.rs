//! Server settings and the precedence rules that fill them in.

use vstd::prelude::*;

verus! {

/// Settings of the server: the TCP port to listen on, the folder that
/// holds the comics, and an optional mirror URL handed to clients.
pub struct Config {
    pub port: u16,
    pub img_folder: String,
    pub mirror: Option<String>,
}

/// The folder used when neither the command line nor the config file
/// names one.
pub open spec fn default_folder() -> Seq<char> {
    seq!['.']
}

impl Default for Config {
    /// Built-in defaults: port 30000, the current directory, no mirror.
    fn default() -> (c: Config)
        ensures
            c.port == 30000,
            c.img_folder@ == default_folder(),
            c.mirror is None,
    {
        let folder = String::from_str(".");
        proof {
            reveal_strlit(".");
            assert(folder@ =~= default_folder());
        }
        Config { port: 30000, img_folder: folder, mirror: None }
    }
}

impl Config {
    /// Combines the values found on the command line with those of the
    /// config file: a command-line value wins over the file's, the
    /// file's over the default.  A file port that does not fit in 16
    /// bits is ignored.
    pub fn resolve(
        arg_folder: Option<String>,
        arg_port: Option<u16>,
        arg_mirror: Option<String>,
        file_folder: Option<String>,
        file_port: Option<u64>,
        file_mirror: Option<String>,
    ) -> (c: Config)
        ensures
            c.img_folder@ == (match arg_folder {
                Some(f) => f@,
                None => match file_folder {
                    Some(f) => f@,
                    None => default_folder(),
                },
            }),
            c.port == (match arg_port {
                Some(p) => p,
                None => match file_port {
                    Some(p) => if p <= u16::MAX { p as u16 } else { 30000u16 },
                    None => 30000u16,
                },
            }),
            c.mirror == (match arg_mirror {
                Some(m) => Some(m),
                None => file_mirror,
            }),
    {
        let img_folder = match arg_folder {
            Some(f) => f,
            None => match file_folder {
                Some(f) => f,
                None => {
                    let folder = String::from_str(".");
                    proof {
                        reveal_strlit(".");
                        assert(folder@ =~= default_folder());
                    }
                    folder
                },
            },
        };
        let port: u16 = match arg_port {
            Some(p) => p,
            None => match file_port {
                Some(p) => if p <= 65535 {
                    p as u16
                } else {
                    30000
                },
                None => 30000,
            },
        };
        let mirror = match arg_mirror {
            Some(m) => Some(m),
            None => file_mirror,
        };
        Config { port, img_folder, mirror }
    }
}

} // verus!
