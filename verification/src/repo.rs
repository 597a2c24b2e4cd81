//! The repository on disk: where it is rooted, what it holds, and how it names
//! its records.

use std::path::PathBuf;
use vstd::prelude::*;
use vstd::string::StringExecFns;

verus! {

/// A path of the platform; nothing is read out of it.
#[verifier::external_type_specification]
#[verifier::external_body]
pub struct ExPathBuf(std::path::PathBuf);

/// The settings a repository is initialised with.
#[derive(Debug, Clone)]
pub struct RepoConfig {
    pub bot_token: String,
    pub application_id: String,
    pub guild_id: String,
    pub root_channel_id: String,
    pub public_key: String,
}

pub struct RepoConfigView {
    pub bot_token: Seq<char>,
    pub application_id: Seq<char>,
    pub guild_id: Seq<char>,
    pub root_channel_id: Seq<char>,
    pub public_key: Seq<char>,
}

impl View for RepoConfig {
    type V = RepoConfigView;

    open spec fn view(&self) -> RepoConfigView {
        RepoConfigView {
            bot_token: self.bot_token@,
            application_id: self.application_id@,
            guild_id: self.guild_id@,
            root_channel_id: self.root_channel_id@,
            public_key: self.public_key@,
        }
    }
}

impl Default for RepoConfig {
    fn default() -> (c: Self)
        ensures
            c@ == (RepoConfigView {
                bot_token: Seq::empty(),
                application_id: Seq::empty(),
                guild_id: Seq::empty(),
                root_channel_id: Seq::empty(),
                public_key: Seq::empty(),
            }),
    {
        RepoConfig {
            bot_token: String::new(),
            application_id: String::new(),
            guild_id: String::new(),
            root_channel_id: String::new(),
            public_key: String::new(),
        }
    }
}

/// A repository, by its root directory.
#[derive(Debug)]
pub struct Repo {
    root: PathBuf,
}

impl Repo {
    /// The root directory.
    pub closed spec fn root(&self) -> PathBuf {
        self.root
    }

    /// The repository rooted at `root`.
    pub fn new(root: PathBuf) -> (repo: Self)
        ensures
            repo.root() == root,
    {
        Repo { root }
    }

    /// The root directory.
    pub fn path(&self) -> (root: &PathBuf)
        ensures
            *root == self.root(),
    {
        &self.root
    }
}

/// The namespaces below the root, in the order they are created: head
/// pointers, history containers, manifests, chunk content, the quarantine
/// area, and keys.
pub open spec fn layout_names() -> Seq<Seq<char>> {
    seq![
        seq!['r', 'e', 'f', 's'],
        seq!['t', 'h', 'r', 'e', 'a', 'd', 's'],
        seq!['m', 'a', 'n', 'i', 'f', 'e', 's', 't', 's'],
        seq!['c', 'i', 'd', 's'],
        seq!['l', 'o', 's', 't', '+', 'f', 'o', 'u', 'n', 'd'],
        seq!['k', 'e', 'y', 's'],
    ]
}

/// The name of the record that holds the settings.
pub open spec fn config_name() -> Seq<char> {
    seq!['c', 'o', 'n', 'f', 'i', 'g', '.', 'j', 's', 'o', 'n']
}

/// The views of a sequence of strings.
pub open spec fn texts(names: Seq<String>) -> Seq<Seq<char>> {
    names.map_values(|s: String| s@)
}

/// The directories a repository holds below its root.
pub fn layout_dirs() -> (names: Vec<String>)
    ensures
        texts(names@) == layout_names(),
{
    proof {
        reveal_strlit("refs");
        reveal_strlit("threads");
        reveal_strlit("manifests");
        reveal_strlit("cids");
        reveal_strlit("lost+found");
        reveal_strlit("keys");
    }
    let mut names: Vec<String> = Vec::new();
    names.push(String::from_str("refs"));
    names.push(String::from_str("threads"));
    names.push(String::from_str("manifests"));
    names.push(String::from_str("cids"));
    names.push(String::from_str("lost+found"));
    names.push(String::from_str("keys"));
    assert(texts(names@).len() == 6);
    assert(texts(names@)[0] =~= layout_names()[0]);
    assert(texts(names@)[1] =~= layout_names()[1]);
    assert(texts(names@)[2] =~= layout_names()[2]);
    assert(texts(names@)[3] =~= layout_names()[3]);
    assert(texts(names@)[4] =~= layout_names()[4]);
    assert(texts(names@)[5] =~= layout_names()[5]);
    assert(texts(names@) =~= layout_names());
    names
}

/// The name of the record that holds the settings.
pub fn config_file_name() -> (name: String)
    ensures
        name@ == config_name(),
{
    proof {
        reveal_strlit("config.json");
    }
    let name = String::from_str("config.json");
    assert(name@ =~= config_name());
    name
}

/// The name the settings are written under first, to be renamed over the
/// record once it is complete.
pub fn config_temp_name() -> (name: String)
    ensures
        name@ == config_name() + seq!['.', 't', 'm', 'p'],
{
    proof {
        reveal_strlit("config.json.tmp");
    }
    let name = String::from_str("config.json.tmp");
    assert(name@ =~= config_name() + seq!['.', 't', 'm', 'p']);
    name
}

} // verus!
