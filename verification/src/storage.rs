//! Key construction for the byte store. The store itself (filesystem or
//! object storage) is a collaborator outside this library; here live the
//! path computations callers rely on.

use vstd::prelude::*;
use crate::text::chars_string;
use crate::text::split_on;
use crate::text::split_on_exec;
use crate::text::str_chars;

verus! {

/// A handle on the byte store, remembering the base directory all keys
/// live under.
pub struct Storage {
    pub base_dir: String,
}

impl Storage {
    pub fn new(base_dir: String) -> (r: Self)
        ensures
            r.base_dir@ == base_dir@,
    {
        Self { base_dir }
    }

    /// The store key for `filename`: the base directory, a separator, and
    /// the file name.
    pub fn get_file_path(&self, filename: &str) -> (r: String)
        ensures
            r@ == self.base_dir@ + seq!['/'] + filename@,
    {
        let mut r = self.base_dir.clone();
        r.append("/");
        r.append(filename);
        proof {
            reveal_strlit("/");
            assert("/"@ =~= seq!['/']);
        }
        r
    }
}

/// The identifier prefix of a stored project name. Uploads are stored
/// under names of the form `<id>_<project>`, so a name that contains an
/// underscore yields the part before the first one; a bare project name
/// yields nothing and the caller must search the store instead.
pub fn project_id_prefix(project_name: &str) -> (r: Option<String>)
    ensures
        ({
            let parts = split_on(project_name@, seq!['_']);
            match r {
                Some(p) => parts.len() >= 2 && p@ == parts[0],
                None => parts.len() < 2,
            }
        }),
{
    let chars = str_chars(project_name);
    let mut seps: Vec<char> = Vec::new();
    seps.push('_');
    proof {
        assert(seps@ =~= seq!['_']);
    }
    let parts = split_on_exec(&chars, &seps);
    if parts.len() >= 2 {
        proof {
            assert(parts.deep_view()[0] =~= parts@[0]@);
        }
        Some(chars_string(&parts[0]))
    } else {
        None
    }
}

} // verus!
