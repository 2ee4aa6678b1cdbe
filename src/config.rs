use vstd::prelude::*;
use vstd::string::*;

verus! {

/// One tracked repository: whose commits to report, where the repository
/// lies, its base branch, the branches never to walk, and the mark that a
/// branch name holds when the branch belongs to the author.
#[derive(Debug)]
pub struct Repo {
    pub author_email: String,
    pub path: String,
    pub branch: String,
    pub ignored_branches: Option<Vec<String>>,
    pub branch_owner: String,
}

/// The tracked repositories, in the order they are reported.
#[derive(Debug)]
pub struct Config {
    repos: Vec<Repo>,
}

impl Config {
    pub closed spec fn repos(&self) -> Seq<Repo> {
        self.repos@
    }

    pub fn new(repos: Vec<Repo>) -> (r: Config)
        ensures
            r.repos() == repos@,
    {
        Config { repos }
    }

    pub fn get_repos(&self) -> (r: &Vec<Repo>)
        ensures
            r@ == self.repos(),
    {
        &self.repos
    }
}

/// The place of the configuration file.
#[derive(Debug)]
pub struct ConfigPath(pub String);

/// The configuration file under the home directory `home`: the path
/// `.config/git-diver/config.toml` joined to it, with a separator where
/// `home` does not end in one.
pub open spec fn config_file_under(home: Seq<char>) -> Seq<char> {
    if home.len() > 0 && home.last() != '/' {
        home + "/.config/git-diver/config.toml"@
    } else {
        home + ".config/git-diver/config.toml"@
    }
}

/// Relies on dirs::home_dir: the current user's home directory, where one is
/// found, written as text.
#[verifier::external_body]
fn home_dir() -> (r: Option<String>) {
    match dirs::home_dir() {
        Some(p) => Some(p.to_string_lossy().to_string()),
        None => None,
    }
}

impl ConfigPath {
    /// The configuration file under the home directory `home`.
    pub fn under_home(home: &str) -> (r: ConfigPath)
        ensures
            r.0@ == config_file_under(home@),
    {
        let mut path = String::from_str(home);
        let n = home.unicode_len();
        if n > 0 && home.get_char(n - 1) != '/' {
            path.append("/.config/git-diver/config.toml");
        } else {
            path.append(".config/git-diver/config.toml");
        }
        ConfigPath(path)
    }

    /// The given path, or else the configuration file under the user's home
    /// directory; nothing where no path is given and no home directory is found.
    pub fn new(path: Option<&str>) -> (r: Option<ConfigPath>)
        ensures
            path matches Some(p) ==> r matches Some(c) && c.0@ == p@,
            path is None ==> (r matches Some(c) ==> exists|home: Seq<char>|
                c.0@ == config_file_under(home)),
    {
        match path {
            Some(p) => Some(ConfigPath(String::from_str(p))),
            None => match home_dir() {
                Some(home) => Some(ConfigPath::under_home(home.as_str())),
                None => None,
            },
        }
    }

    pub fn as_str(&self) -> (r: &str)
        ensures
            r@ == self.0@,
    {
        self.0.as_str()
    }
}

} // verus!
