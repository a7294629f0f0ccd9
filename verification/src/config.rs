use vstd::prelude::*;

use crate::repo::{join, path_join};
use crate::strmap::{lemma_pairs_lookup_all, StrMap};
use crate::text::{owned, str_eq};

verus! {

/// Where a remote lives, with the token to present there if one was given.
#[derive(Debug, Clone)]
pub enum Remote {
    Plain(String),
    Full { url: String, token: Option<String> },
}

impl Remote {
    pub open spec fn url_spec(&self) -> Seq<char> {
        match self {
            Remote::Plain(url) => url@,
            Remote::Full { url, .. } => url@,
        }
    }

    pub open spec fn token_spec(&self) -> Option<Seq<char>> {
        match self {
            Remote::Plain(_) => None,
            Remote::Full { token, .. } => match token {
                Some(t) => Some(t@),
                None => None,
            },
        }
    }

    /// The remote's location.
    pub fn url(&self) -> (u: &String)
        ensures
            u@ == self.url_spec(),
    {
        match self {
            Remote::Plain(url) => url,
            Remote::Full { url, .. } => url,
        }
    }

    /// The token stored with the remote, if any.
    pub fn token(&self) -> (t: Option<&String>)
        ensures
            match t {
                Some(s) => self.token_spec() == Some(s@),
                None => self.token_spec() is None,
            },
    {
        match self {
            Remote::Plain(_) => None,
            Remote::Full { token, .. } => match token {
                Some(t) => Some(t),
                None => None,
            },
        }
    }
}

/// Settings of one repository.
pub struct Config {
    pub remotes: StrMap<Remote>,
    pub no_readme: bool,
    pub registry: Option<String>,
}

/// Failures of configuration edits.
#[derive(Debug, Clone, Copy, PartialEq, Eq)]
pub enum ConfigError {
    /// No remote has that name.
    NoSuchRemote,
    /// A library with that name is already linked.
    LibExists,
    /// No library has that name.
    NoSuchLib,
}

impl Config {
    /// Remembers a push's request for no README: once asked, no README is
    /// generated on later pushes either. Whether the setting changed (and so
    /// must be saved) is returned; nothing else changes.
    pub fn note_no_readme(&mut self, asked: bool) -> (changed: bool)
        ensures
            final(self).no_readme == (old(self).no_readme || asked),
            changed == (asked && !old(self).no_readme),
            final(self).remotes == old(self).remotes,
            final(self).registry == old(self).registry,
    {
        if asked && !self.no_readme {
            self.no_readme = true;
            true
        } else {
            false
        }
    }

    /// Whether a push generates a README.
    pub fn generates_readme(&self) -> (b: bool)
        ensures
            b == !self.no_readme,
    {
        !self.no_readme
    }

    /// The settings of a repository that has none written yet.
    pub fn new() -> (c: Config)
        ensures
            c.remotes@ == Map::<Seq<char>, Remote>::empty(),
            !c.no_readme,
            c.registry is None,
    {
        Config { remotes: StrMap::new(), no_readme: false, registry: None }
    }

    /// Links a remote under `name`, replacing any remote of that name. With a
    /// token the remote keeps it; without one it is a plain location.
    pub fn add_remote(&mut self, name: String, url: String, token: Option<String>)
        ensures
            final(self).remotes@ == old(self).remotes@.insert(
                name@,
                match token {
                    Some(t) => Remote::Full { url: url, token: Some(t) },
                    None => Remote::Plain(url),
                },
            ),
            final(self).no_readme == old(self).no_readme,
            final(self).registry == old(self).registry,
    {
        let entry = match token {
            Some(t) => Remote::Full { url: url, token: Some(t) },
            None => Remote::Plain(url),
        };
        self.remotes.insert(name, entry);
    }

    /// Unlinks the remote `name`; an error when there is none.
    pub fn remove_remote(&mut self, name: &str) -> (r: Result<(), ConfigError>)
        ensures
            r is Ok <==> old(self).remotes@.contains_key(name@),
            r is Err ==> r == Err::<(), ConfigError>(ConfigError::NoSuchRemote),
            final(self).remotes@ == old(self).remotes@.remove(name@),
            final(self).no_readme == old(self).no_readme,
            final(self).registry == old(self).registry,
    {
        match self.remotes.remove(name) {
            Some(_) => Ok(()),
            None => Err(ConfigError::NoSuchRemote),
        }
    }

    /// Which remote a command uses: the one named, else the only one, else `origin`.
    pub fn pick_remote_name(&self, name: Option<String>) -> (n: String)
        ensures
            n@ == pick_remote_name_spec(self.remotes.key_seq(), match name { Some(s) => Some(s@), None => None }),
    {
        match name {
            Some(n) => n,
            None => {
                if self.remotes.len() == 1 {
                    let (k, _) = self.remotes.pair_at(0);
                    k.clone()
                } else {
                    proof { reveal_strlit("origin"); }
                    owned("origin")
                }
            },
        }
    }
}

/// The remote name a command picks among `keys` (in order) when asked for `name`.
pub open spec fn pick_remote_name_spec(keys: Seq<Seq<char>>, name: Option<Seq<char>>) -> Seq<char> {
    match name {
        Some(n) => n,
        None => if keys.len() == 1 { keys[0] } else { seq!['o', 'r', 'i', 'g', 'i', 'n'] },
    }
}

/// Whether `v` is a visibility a server repository can have.
pub fn valid_visibility(v: &str) -> (b: bool)
    ensures
        b == (v@ == seq!['p', 'u', 'b', 'l', 'i', 'c'] || v@ == seq!['p', 'r', 'i', 'v', 'a', 't', 'e']),
{
    proof {
        reveal_strlit("public");
        reveal_strlit("private");
        assert("public"@ =~= seq!['p', 'u', 'b', 'l', 'i', 'c']);
        assert("private"@ =~= seq!['p', 'r', 'i', 'v', 'a', 't', 'e']);
    }
    str_eq(v, "public") || str_eq(v, "private")
}

/// A library linked into an avatar: copied from `source` (only its `subdir`
/// folder, if given) into a folder named `name`.
#[derive(Debug, Clone)]
pub struct Lib {
    pub name: String,
    pub source: String,
    pub subdir: Option<String>,
    pub token: Option<String>,
}

/// The names of a list of libraries, in order.
pub open spec fn lib_names(libs: Seq<Lib>) -> Seq<Seq<char>> {
    libs.map_values(|l: Lib| l.name@)
}

/// The file that lists an avatar's linked libraries.
pub fn libs_path(root: &str) -> (p: String)
    ensures
        p@ == path_join(root@, seq!['.', 'f', 'v', 'c', 's', 'l', 'i', 'b', 's']),
{
    proof { reveal_strlit(".fvcslibs"); }
    join(root, ".fvcslibs")
}

/// Position of the library named `name`, if linked.
pub fn find_lib(libs: &Vec<Lib>, name: &str) -> (r: Option<usize>)
    ensures
        match r {
            Some(i) => i < libs@.len() && libs@[i as int].name@ == name@
                && forall|m: int| 0 <= m < i ==> libs@[m].name@ != name@,
            None => forall|m: int| 0 <= m < libs@.len() ==> libs@[m].name@ != name@,
        },
{
    let mut i: usize = 0;
    while i < libs.len()
        invariant
            i <= libs@.len(),
            forall|m: int| 0 <= m < i ==> libs@[m].name@ != name@,
        decreases libs.len() - i,
    {
        if str_eq(libs[i].name.as_str(), name) {
            return Some(i);
        }
        i += 1;
    }
    None
}

/// Links a library; refused when one with the same name is linked already.
pub fn add_lib(libs: &mut Vec<Lib>, lib: Lib) -> (r: Result<(), ConfigError>)
    ensures
        r is Ok <==> forall|m: int| 0 <= m < old(libs)@.len() ==> old(libs)@[m].name@ != lib.name@,
        r is Ok ==> final(libs)@ == old(libs)@.push(lib),
        r is Err ==> final(libs)@ == old(libs)@ && r == Err::<(), ConfigError>(ConfigError::LibExists),
{
    match find_lib(libs, lib.name.as_str()) {
        Some(_) => Err(ConfigError::LibExists),
        None => {
            libs.push(lib);
            Ok(())
        },
    }
}

/// Unlinks every library named `name`, keeping the others in order; an error
/// when none has that name.
pub fn remove_lib(libs: &mut Vec<Lib>, name: &str) -> (r: Result<(), ConfigError>)
    ensures
        final(libs)@ == old(libs)@.filter(|l: Lib| l.name@ != name@),
        r is Ok <==> exists|m: int| 0 <= m < old(libs)@.len() && old(libs)@[m].name@ == name@,
        r is Err ==> r == Err::<(), ConfigError>(ConfigError::NoSuchLib),
{
    let ghost orig = libs@;
    let ghost keep = |l: Lib| l.name@ != name@;
    let mut found = false;
    let mut i: usize = 0;
    let ghost mut j: int = 0;
    while i < libs.len()
        invariant
            0 <= j <= orig.len(),
            libs@ == orig.take(j).filter(keep) + orig.skip(j),
            i == orig.take(j).filter(keep).len(),
            found == exists|m: int| 0 <= m < j && orig[m].name@ == name@,
            keep == (|l: Lib| l.name@ != name@),
        decreases libs.len() - i,
    {
        proof {
            assert(orig.take(j + 1).drop_last() == orig.take(j));
            assert(orig.take(j + 1).last() == orig[j]);
            reveal_with_fuel(Seq::<_>::filter, 1);
            assert(libs@[i as int] == orig[j]);
            assert(orig.skip(j).drop_first() == orig.skip(j + 1));
        }
        if str_eq(libs[i].name.as_str(), name) {
            libs.remove(i);
            found = true;
            proof {
                assert(libs@ == orig.take(j + 1).filter(keep) + orig.skip(j + 1));
            }
        } else {
            i += 1;
            proof {
                assert(libs@ == orig.take(j + 1).filter(keep) + orig.skip(j + 1));
            }
        }
        proof {
            j = j + 1;
        }
    }
    proof {
        assert(orig.take(j).filter(keep).len() <= j) by {
            orig.take(j).lemma_filter_len(keep);
        }
        assert(j == orig.len());
        assert(orig.take(orig.len() as int) == orig);
        assert(orig.skip(orig.len() as int) == Seq::<Lib>::empty());
    }
    if found { Ok(()) } else { Err(ConfigError::NoSuchLib) }
}

} // verus!
