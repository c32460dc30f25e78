//! Configuration: where content, static files and templates live, and the
//! address to listen on. Shared read-only once built.
use vstd::prelude::*;
use vstd::string::*;

verus! {

/// The configuration of a running server.
///
/// - `rootdir` the root of the documents to serve
/// - `staticdir` the root of the static files (styles, images)
/// - `template_dir` the root of the page templates
/// - `ip`, `port` the address to listen on
#[derive(Debug)]
pub struct Config {
    pub rootdir: String,
    pub staticdir: String,
    pub template_dir: String,
    pub ip: [u8; 4],
    pub port: u16,
}

pub const DEFAULT_PORT: u16 = 7878;

/// `./`
pub open spec fn default_root() -> Seq<char> {
    seq!['.', '/']
}

/// `./sample/static`
pub open spec fn default_static() -> Seq<char> {
    seq!['.', '/', 's', 'a', 'm', 'p', 'l', 'e', '/', 's', 't', 'a', 't', 'i', 'c']
}

/// `./sample/templates`
pub open spec fn default_templates() -> Seq<char> {
    seq!['.', '/', 's', 'a', 'm', 'p', 'l', 'e', '/', 't', 'e', 'm', 'p', 'l', 'a', 't', 'e', 's']
}

/// `p` without trailing `/`, but for a lone `/`: the same directory.
pub open spec fn trim_trailing_slashes(p: Seq<char>) -> Seq<char>
    decreases p.len(),
{
    if p.len() > 1 && p.last() == '/' {
        trim_trailing_slashes(p.drop_last())
    } else {
        p
    }
}

fn path_of(p: &str) -> (r: String)
    ensures
        r@ == trim_trailing_slashes(p@),
{
    let mut j = p.unicode_len();
    proof {
        assert(p@.subrange(0, j as int) =~= p@);
    }
    while j > 1 && p.get_char(j - 1) == '/'
        invariant
            j <= p@.len(),
            trim_trailing_slashes(p@) == trim_trailing_slashes(p@.subrange(0, j as int)),
        decreases j,
    {
        proof {
            assert(p@.subrange(0, j as int).drop_last() =~= p@.subrange(0, j - 1));
        }
        j = j - 1;
    }
    proof {
        assert(trim_trailing_slashes(p@.subrange(0, j as int)) == p@.subrange(0, j as int));
    }
    String::from_str(p.substring_char(0, j))
}

impl Config {
    /// A builder that starts from the defaults.
    pub fn build() -> (r: ConfigBuilder)
        ensures
            r.is_default(),
    {
        ConfigBuilder::new()
    }

    /// The built-in defaults: serve `./`, static files from `./sample/static`,
    /// templates from `./sample/templates`, on `0.0.0.0:7878`.
    pub fn default() -> (r: Config)
        ensures
            r.rootdir@ == default_root(),
            r.staticdir@ == default_static(),
            r.template_dir@ == default_templates(),
            r.ip == [0u8, 0, 0, 0],
            r.port == DEFAULT_PORT,
    {
        proof {
            reveal_strlit("./");
            reveal_strlit("./sample/static");
            reveal_strlit("./sample/templates");
        }
        Config {
            rootdir: String::from_str("./"),
            staticdir: String::from_str("./sample/static"),
            template_dir: String::from_str("./sample/templates"),
            ip: [0, 0, 0, 0],
            port: DEFAULT_PORT,
        }
    }

    /// A copy with the same fields.
    pub fn duplicate(&self) -> (r: Config)
        ensures
            r.rootdir@ == self.rootdir@,
            r.staticdir@ == self.staticdir@,
            r.template_dir@ == self.template_dir@,
            r.ip == self.ip,
            r.port == self.port,
    {
        Config {
            rootdir: self.rootdir.clone(),
            staticdir: self.staticdir.clone(),
            template_dir: self.template_dir.clone(),
            ip: self.ip,
            port: self.port,
        }
    }
}

/// Builds a `Config` from values the caller has gathered.
pub struct ConfigBuilder {
    pub config: Config,
}

impl ConfigBuilder {
    pub open spec fn is_default(&self) -> bool {
        &&& self.config.rootdir@ == default_root()
        &&& self.config.staticdir@ == default_static()
        &&& self.config.template_dir@ == default_templates()
        &&& self.config.ip == [0u8, 0, 0, 0]
        &&& self.config.port == DEFAULT_PORT
    }

    /// Starts from the defaults.
    pub fn new() -> (r: ConfigBuilder)
        ensures
            r.is_default(),
    {
        ConfigBuilder { config: Config::default() }
    }

    /// The finished configuration.
    pub fn build(self) -> (r: Config)
        ensures
            r == self.config,
    {
        self.config
    }

    /// Takes the roots found in the environment, where they were set.
    pub fn source_env(
        self,
        rootdir: Option<String>,
        staticdir: Option<String>,
        template_dir: Option<String>,
    ) -> (r: ConfigBuilder)
        ensures
            r.config.rootdir@ == (match rootdir {
                Some(p) => p@,
                None => self.config.rootdir@,
            }),
            r.config.staticdir@ == (match staticdir {
                Some(p) => p@,
                None => self.config.staticdir@,
            }),
            r.config.template_dir@ == (match template_dir {
                Some(p) => p@,
                None => self.config.template_dir@,
            }),
            r.config.ip == self.config.ip,
            r.config.port == self.config.port,
    {
        let mut config = self.config;
        if let Some(p) = rootdir {
            config.rootdir = p;
        }
        if let Some(p) = staticdir {
            config.staticdir = p;
        }
        if let Some(p) = template_dir {
            config.template_dir = p;
        }
        ConfigBuilder { config }
    }

    /// Sets the root of the documents to serve.
    pub fn set_root(self, path: &str) -> (r: ConfigBuilder)
        ensures
            r.config.rootdir@ == trim_trailing_slashes(path@),
            r.config.staticdir@ == self.config.staticdir@,
            r.config.template_dir@ == self.config.template_dir@,
            r.config.ip == self.config.ip,
            r.config.port == self.config.port,
    {
        let mut config = self.config;
        config.rootdir = path_of(path);
        ConfigBuilder { config }
    }

    /// Sets the root of the static files.
    pub fn set_static(self, path: &str) -> (r: ConfigBuilder)
        ensures
            r.config.rootdir@ == self.config.rootdir@,
            r.config.staticdir@ == trim_trailing_slashes(path@),
            r.config.template_dir@ == self.config.template_dir@,
            r.config.ip == self.config.ip,
            r.config.port == self.config.port,
    {
        let mut config = self.config;
        config.staticdir = path_of(path);
        ConfigBuilder { config }
    }

    /// Sets the address to listen on.
    pub fn set_address(self, ip: [u8; 4], port: u16) -> (r: ConfigBuilder)
        ensures
            r.config.rootdir@ == self.config.rootdir@,
            r.config.staticdir@ == self.config.staticdir@,
            r.config.template_dir@ == self.config.template_dir@,
            r.config.ip == ip,
            r.config.port == port,
    {
        let mut config = self.config;
        config.ip = ip;
        config.port = port;
        ConfigBuilder { config }
    }

    /// Sets the address to listen on, keeping the port.
    pub fn set_ip(self, ip: [u8; 4]) -> (r: ConfigBuilder)
        ensures
            r.config.rootdir@ == self.config.rootdir@,
            r.config.staticdir@ == self.config.staticdir@,
            r.config.template_dir@ == self.config.template_dir@,
            r.config.ip == ip,
            r.config.port == self.config.port,
    {
        let mut config = self.config;
        config.ip = ip;
        ConfigBuilder { config }
    }

    /// Sets the port to listen on, keeping the address.
    pub fn set_port(self, port: u16) -> (r: ConfigBuilder)
        ensures
            r.config.rootdir@ == self.config.rootdir@,
            r.config.staticdir@ == self.config.staticdir@,
            r.config.template_dir@ == self.config.template_dir@,
            r.config.ip == self.config.ip,
            r.config.port == port,
    {
        let mut config = self.config;
        config.port = port;
        ConfigBuilder { config }
    }
}

} // verus!
