//! Where the sentinel of a file lock lives.

use vstd::prelude::*;
use crate::text::{push_char, push_str};

verus! {

/// `.lock`
pub open spec fn lock_suffix() -> Seq<char> {
    seq!['.', 'l', 'o', 'c', 'k']
}

/// The sentinel that guards a target file: the target's path with `.lock`
/// appended, in the same directory. While it exists the lock is held.
pub struct FileLock {
    lock_path: String,
}

impl FileLock {
    /// The lock for `target_path`.
    pub fn for_target(target_path: &str) -> (r: Self)
        ensures
            r.spec_lock_path() == target_path@ + lock_suffix(),
    {
        let mut p = String::new();
        push_str(&mut p, target_path);
        push_char(&mut p, '.');
        push_char(&mut p, 'l');
        push_char(&mut p, 'o');
        push_char(&mut p, 'c');
        push_char(&mut p, 'k');
        assert(p@ =~= target_path@ + lock_suffix());
        FileLock { lock_path: p }
    }

    /// The sentinel's path.
    pub closed spec fn spec_lock_path(&self) -> Seq<char> {
        self.lock_path@
    }

    /// The sentinel's path.
    pub fn lock_path(&self) -> (r: &String)
        ensures
            r@ == self.spec_lock_path(),
    {
        &self.lock_path
    }
}

} // verus!
