use vstd::prelude::*;

verus! {

/// What a backend reported for a read.
#[derive(Debug)]
pub enum ReadOutcome {
    Found(Vec<u8>),
    NotFound,
    Failed(String),
}

/// A backend failure other than a missing object, with the backend's message.
#[derive(Debug)]
pub struct StorageError {
    pub message: String,
}

/// The bytes of a read: a missing object reads as empty, any other failure is an error.
pub fn read_result(outcome: ReadOutcome) -> (r: Result<Vec<u8>, StorageError>)
    ensures
        match outcome {
            ReadOutcome::Found(b) => r is Ok && r->Ok_0@ == b@,
            ReadOutcome::NotFound => r is Ok && r->Ok_0@.len() == 0,
            ReadOutcome::Failed(m) => r is Err && r->Err_0.message == m,
        },
{
    match outcome {
        ReadOutcome::Found(b) => Ok(b),
        ReadOutcome::NotFound => Ok(Vec::new()),
        ReadOutcome::Failed(message) => Err(StorageError { message }),
    }
}

/// The kind of medium that holds a ledger's files.
#[derive(Debug, Clone, Copy, PartialEq, Eq, Structural)]
pub enum DataSource {
    Fs,
    WebDav,
}

/// A setting that a backend needs and that was not given.
#[derive(Debug, Clone, Copy, PartialEq, Eq, Structural)]
pub enum MissingSetting {
    WebDavEndpoint,
    WebDavRoot,
    WebDavUsername,
    WebDavPassword,
}

/// A configuration that cannot work: a missing backend setting, or a root file whose extension
/// names no known dialect.
#[derive(Debug, Clone, Copy, PartialEq, Eq, Structural)]
pub enum ConfigError {
    Missing(MissingSetting),
    UnsupportedExtension,
}

/// The settings a backend may be built from, as collected at start-up.
#[derive(Debug)]
pub struct StorageSettings {
    pub source: DataSource,
    pub path: String,
    pub webdav_endpoint: Option<String>,
    pub webdav_root: Option<String>,
    pub webdav_username: Option<String>,
    pub webdav_password: Option<String>,
}

/// A validated backend configuration.
#[derive(Debug)]
pub enum BackendConfig {
    Local { root: String },
    WebDav { endpoint: String, root: String, username: String, password: String },
}

/// The backend the settings describe: the local directory at `path`, or the remote server,
/// which needs all four of its settings.
pub fn backend_config(settings: StorageSettings) -> (r: Result<BackendConfig, ConfigError>)
    ensures
        match settings.source {
            DataSource::Fs => r matches Ok(BackendConfig::Local { root }) && root == settings.path,
            DataSource::WebDav => match (settings.webdav_endpoint, settings.webdav_root, settings.webdav_username, settings.webdav_password) {
                (None, _, _, _) => r == Err::<BackendConfig, ConfigError>(ConfigError::Missing(MissingSetting::WebDavEndpoint)),
                (Some(_), None, _, _) => r == Err::<BackendConfig, ConfigError>(ConfigError::Missing(MissingSetting::WebDavRoot)),
                (Some(_), Some(_), None, _) => r == Err::<BackendConfig, ConfigError>(ConfigError::Missing(MissingSetting::WebDavUsername)),
                (Some(_), Some(_), Some(_), None) => r == Err::<BackendConfig, ConfigError>(ConfigError::Missing(MissingSetting::WebDavPassword)),
                (Some(e), Some(ro), Some(u), Some(p)) => r == Ok::<BackendConfig, ConfigError>(BackendConfig::WebDav { endpoint: e, root: ro, username: u, password: p }),
            },
        },
{
    match settings.source {
        DataSource::Fs => Ok(BackendConfig::Local { root: settings.path }),
        DataSource::WebDav => {
            let endpoint = match settings.webdav_endpoint {
                Some(v) => v,
                None => return Err(ConfigError::Missing(MissingSetting::WebDavEndpoint)),
            };
            let root = match settings.webdav_root {
                Some(v) => v,
                None => return Err(ConfigError::Missing(MissingSetting::WebDavRoot)),
            };
            let username = match settings.webdav_username {
                Some(v) => v,
                None => return Err(ConfigError::Missing(MissingSetting::WebDavUsername)),
            };
            let password = match settings.webdav_password {
                Some(v) => v,
                None => return Err(ConfigError::Missing(MissingSetting::WebDavPassword)),
            };
            Ok(BackendConfig::WebDav { endpoint, root, username, password })
        },
    }
}

/// The grammar a ledger's files are written in.
#[derive(Debug, Clone, Copy, PartialEq, Eq, Structural)]
pub enum Dialect {
    Zhang,
    Beancount,
}

/// The position of the last `c` among the first `n` characters of `s`, or -1.
pub open spec fn last_index(s: Seq<char>, c: char, n: int) -> int
    decreases n,
{
    if n <= 0 {
        -1
    } else if s[n - 1] == c {
        n - 1
    } else {
        last_index(s, c, n - 1)
    }
}

/// The extension of the file a path names: what follows the last `.` of its last component,
/// where that dot is not the component's first character.
pub open spec fn extension(p: Seq<char>) -> Option<Seq<char>> {
    let name = p.subrange(last_index(p, '/', p.len() as int) + 1, p.len() as int);
    let dot = last_index(name, '.', name.len() as int);
    if dot > 0 {
        Some(name.subrange(dot + 1, name.len() as int))
    } else {
        None
    }
}

/// The dialect that an extension selects.
pub open spec fn dialect_for(ext: Option<Seq<char>>) -> Option<Dialect> {
    match ext {
        Some(e) => if e == seq!['b', 'c'] || e == seq!['b', 'e', 'a', 'n'] {
            Some(Dialect::Beancount)
        } else if e == seq!['z', 'h', 'a', 'n', 'g'] {
            Some(Dialect::Zhang)
        } else {
            None
        },
        None => None,
    }
}

fn last_index_of(s: &str, c: char, n: usize) -> (r: Option<usize>)
    requires
        n <= s@.len(),
    ensures
        match r {
            Some(k) => k == last_index(s@, c, n as int) && k < n,
            None => last_index(s@, c, n as int) == -1,
        },
{
    let mut i: usize = 0;
    let mut found: Option<usize> = None;
    while i < n
        invariant
            i <= n <= s@.len(),
            match found {
                Some(k) => k == last_index(s@, c, i as int) && k < i,
                None => last_index(s@, c, i as int) == -1,
            },
        decreases n - i,
    {
        if s.get_char(i) == c {
            found = Some(i);
        }
        i = i + 1;
    }
    found
}

/// The dialect of a ledger, from the extension of its root file: `bc` and `bean` select
/// Beancount, `zhang` the native grammar; any other is refused.
pub fn dialect_of(main_file: &str) -> (r: Result<Dialect, ConfigError>)
    ensures
        match dialect_for(extension(main_file@)) {
            Some(d) => r == Ok::<Dialect, ConfigError>(d),
            None => r == Err::<Dialect, ConfigError>(ConfigError::UnsupportedExtension),
        },
{
    let n = main_file.unicode_len();
    let start: usize = match last_index_of(main_file, '/', n) {
        Some(k) => k + 1,
        None => 0,
    };
    let name = main_file.substring_char(start, n);
    let m = name.unicode_len();
    let dot: usize = match last_index_of(name, '.', m) {
        Some(k) => k,
        None => 0,
    };
    if dot == 0 {
        assert(extension(main_file@) is None);
        return Err(ConfigError::UnsupportedExtension);
    }
    let ext = String::from_str(name.substring_char(dot + 1, m));
    let bc = String::from_str("bc");
    let bean = String::from_str("bean");
    let zhang = String::from_str("zhang");
    proof {
        reveal_strlit("bc");
        reveal_strlit("bean");
        reveal_strlit("zhang");
        assert(bc@ =~= seq!['b', 'c']);
        assert(bean@ =~= seq!['b', 'e', 'a', 'n']);
        assert(zhang@ =~= seq!['z', 'h', 'a', 'n', 'g']);
        assert(name@ == main_file@.subrange(last_index(main_file@, '/', n as int) + 1, n as int));
        assert(extension(main_file@) == Some(ext@));
    }
    if ext == bc || ext == bean {
        Ok(Dialect::Beancount)
    } else if ext == zhang {
        Ok(Dialect::Zhang)
    } else {
        Err(ConfigError::UnsupportedExtension)
    }
}

} // verus!
