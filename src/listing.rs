//! A directory listing (`metadata.json`): names mapped to entries, each name
//! at most once, together with the decisions that change a listing: adding a
//! file, creating or descending into a subdirectory, and recording that a
//! subdirectory grew.

use vstd::prelude::*;
use crate::error::MetadataError;
use crate::model::{DirectoryInfo, Entry, FileEntry, Timestamp};
use crate::path_utils::{generate_cid, is_cid_char, CID_LENGTH};
use crate::text::push_char;

verus! {

/// How many content IDs are drawn before giving up on finding a free one.
pub const CID_ATTEMPTS: usize = 64;

/// The names and entries of a listing, in insertion order.
pub type ListingView = Seq<(Seq<char>, Entry)>;

/// No name appears twice.
pub open spec fn names_distinct(s: ListingView) -> bool {
    forall|i: int, j: int| 0 <= i < j < s.len() ==> #[trigger] s[i].0 != #[trigger] s[j].0
}

/// The entry listed under `name`.
pub open spec fn lookup(s: ListingView, name: Seq<char>) -> Option<Entry>
    decreases s.len(),
{
    if s.len() == 0 {
        None
    } else if s[0].0 == name {
        Some(s[0].1)
    } else {
        lookup(s.drop_first(), name)
    }
}

/// The sum of the sizes of all entries.
pub open spec fn listing_total(s: ListingView) -> int
    decreases s.len(),
{
    if s.len() == 0 {
        0
    } else {
        s[0].1.spec_size() + listing_total(s.drop_first())
    }
}

/// Some entry has the content ID `cid`.
pub open spec fn cid_used(s: ListingView, cid: Seq<char>) -> bool {
    exists|i: int| 0 <= i < s.len() && (#[trigger] s[i]).1.spec_cid() == cid
}

/// `a + b`, or `u64::MAX` where the sum does not fit.
pub open spec fn saturating_sum(a: u64, b: u64) -> u64 {
    if a + b <= u64::MAX {
        (a + b) as u64
    } else {
        u64::MAX
    }
}

/// A subdirectory's entry after it grew by `delta` bytes at `now`.
pub open spec fn grown_info(d: DirectoryInfo, delta: u64, now: Timestamp) -> DirectoryInfo {
    DirectoryInfo {
        cid: d.cid,
        size: saturating_sum(d.size, delta),
        created_at: d.created_at,
        modified_at: now,
    }
}

/// The listing after the subdirectory `child` grew by `delta` bytes at `now`;
/// a listing in which `child` is no directory is left as it is.
pub open spec fn grown(s: ListingView, child: Seq<char>, delta: u64, now: Timestamp) -> ListingView {
    s.map_values(
        |e: (Seq<char>, Entry)|
            if e.0 == child && e.1 is Directory {
                (e.0, Entry::Directory(grown_info(e.1->Directory_0, delta, now)))
            } else {
                e
            },
    )
}

/// A fresh subdirectory entry: no bytes yet, created and modified at `now`.
pub open spec fn new_dir_info(cid: String, now: Timestamp) -> DirectoryInfo {
    DirectoryInfo { cid, size: 0, created_at: now, modified_at: now }
}

proof fn lemma_lookup_at(s: ListingView, i: int)
    requires
        names_distinct(s),
        0 <= i < s.len(),
    ensures
        lookup(s, s[i].0) == Some(s[i].1),
    decreases s.len(),
{
    if i > 0 {
        let t = s.drop_first();
        assert(names_distinct(t)) by {
            assert forall|a: int, b: int| 0 <= a < b < t.len() implies #[trigger] t[a].0 != #[trigger] t[b].0 by {
                assert(t[a] == s[a + 1] && t[b] == s[b + 1]);
            }
        }
        assert(s[0].0 != s[i].0);
        lemma_lookup_at(t, i - 1);
    }
}

proof fn lemma_lookup_none(s: ListingView, name: Seq<char>)
    ensures
        lookup(s, name) is None <==> forall|i: int| 0 <= i < s.len() ==> (#[trigger] s[i]).0 != name,
    decreases s.len(),
{
    if s.len() > 0 {
        let t = s.drop_first();
        lemma_lookup_none(t, name);
        if lookup(s, name) is None {
            assert forall|i: int| 0 <= i < s.len() implies (#[trigger] s[i]).0 != name by {
                if i > 0 {
                    assert(s[i] == t[i - 1]);
                }
            }
        } else {
            if s[0].0 != name {
                let k = choose|k: int| 0 <= k < t.len() && (#[trigger] t[k]).0 == name;
                assert(s[k + 1] == t[k]);
            }
        }
    }
}

proof fn lemma_push(s: ListingView, x: (Seq<char>, Entry))
    ensures
        listing_total(s.push(x)) == listing_total(s) + x.1.spec_size(),
        forall|m: Seq<char>| #[trigger] lookup(s.push(x), m) == if lookup(s, m) is Some {
            lookup(s, m)
        } else if x.0 == m {
            Some(x.1)
        } else {
            None
        },
    decreases s.len(),
{
    let p = s.push(x);
    if s.len() > 0 {
        assert(p.drop_first() =~= s.drop_first().push(x));
        lemma_push(s.drop_first(), x);
        assert(p[0] == s[0]);
        assert forall|m: Seq<char>| #[trigger] lookup(p, m) == if lookup(s, m) is Some {
            lookup(s, m)
        } else if x.0 == m {
            Some(x.1)
        } else {
            None
        } by {
            assert(lookup(p.drop_first(), m) == lookup(s.drop_first().push(x), m));
        }
    } else {
        assert(p.drop_first() =~= s);
        assert(p[0] == x);
    }
}

proof fn lemma_grown(s: ListingView, child: Seq<char>, delta: u64, now: Timestamp)
    requires
        names_distinct(s),
    ensures
        names_distinct(grown(s, child, delta, now)),
        forall|m: Seq<char>|
            m != child ==> #[trigger] lookup(grown(s, child, delta, now), m) == lookup(s, m),
        lookup(grown(s, child, delta, now), child) == match lookup(s, child) {
            Some(Entry::Directory(d)) => Some(Entry::Directory(grown_info(d, delta, now))),
            other => other,
        },
        listing_total(grown(s, child, delta, now)) == listing_total(s) + match lookup(s, child) {
            Some(Entry::Directory(d)) => saturating_sum(d.size, delta) - d.size,
            _ => 0,
        },
    decreases s.len(),
{
    let g = grown(s, child, delta, now);
    assert forall|a: int, b: int| 0 <= a < b < g.len() implies #[trigger] g[a].0 != #[trigger] g[b].0 by {
        assert(g[a].0 == s[a].0 && g[b].0 == s[b].0);
    }
    if s.len() > 0 {
        let t = s.drop_first();
        assert(names_distinct(t)) by {
            assert forall|a: int, b: int| 0 <= a < b < t.len() implies #[trigger] t[a].0 != #[trigger] t[b].0 by {
                assert(t[a] == s[a + 1] && t[b] == s[b + 1]);
            }
        }
        lemma_grown(t, child, delta, now);
        assert(g.drop_first() =~= grown(t, child, delta, now));
        assert forall|m: Seq<char>|
            m != child implies #[trigger] lookup(g, m) == lookup(s, m) by {
            assert(g[0].0 == s[0].0);
            if s[0].0 == m {
                assert(g[0] == s[0]);
            } else {
                assert(lookup(g, m) == lookup(g.drop_first(), m));
                assert(lookup(grown(t, child, delta, now), m) == lookup(t, m));
            }
        }
        if s[0].0 == child {
            lemma_lookup_none(t, child);
            assert forall|i: int| 0 <= i < t.len() implies (#[trigger] t[i]).0 != child by {
                assert(t[i] == s[i + 1]);
            }
        }
    }
}

/// The listing of one directory: each name at most once.
pub struct DirectoryListing {
    entries: Vec<(String, Entry)>,
}

impl View for DirectoryListing {
    type V = ListingView;

    closed spec fn view(&self) -> ListingView {
        self.entries@.map_values(|e: (String, Entry)| (e.0@, e.1))
    }
}

impl DirectoryListing {
    /// Each name is listed at most once.
    pub open spec fn wf(&self) -> bool {
        names_distinct(self@)
    }

    /// An empty listing, as for a directory without `metadata.json`.
    pub fn new() -> (r: Self)
        ensures
            r@ == Seq::<(Seq<char>, Entry)>::empty(),
            r.wf(),
    {
        let r = DirectoryListing { entries: Vec::new() };
        assert(r@ =~= Seq::<(Seq<char>, Entry)>::empty());
        r
    }

    /// The number of entries.
    pub fn len(&self) -> (r: usize)
        ensures
            r == self@.len(),
    {
        self.entries.len()
    }

    /// The name and entry at position `i`, in insertion order.
    pub fn entry_at(&self, i: usize) -> (r: (&String, &Entry))
        requires
            i < self@.len(),
        ensures
            r.0@ == self@[i as int].0,
            *r.1 == self@[i as int].1,
    {
        (&self.entries[i].0, &self.entries[i].1)
    }

    fn find(&self, name: &str) -> (r: Option<usize>)
        requires
            self.wf(),
        ensures
            match r {
                Some(i) => i < self@.len() && self@[i as int].0 == name@ && lookup(self@, name@)
                    == Some(self@[i as int].1),
                None => lookup(self@, name@) is None,
            },
    {
        let ghost s = self@;
        let target = name.to_owned();
        let mut i: usize = 0;
        while i < self.entries.len()
            invariant
                target@ == name@,
                s == self@,
                self.wf(),
                i <= s.len(),
                forall|j: int| 0 <= j < i ==> (#[trigger] s[j]).0 != name@,
            decreases s.len() - i,
        {
            assert(s[i as int].0 == self.entries@[i as int].0@);
            if self.entries[i].0 == target {
                proof {
                    lemma_lookup_at(s, i as int);
                }
                return Some(i);
            }
            i = i + 1;
        }
        proof {
            lemma_lookup_none(s, name@);
        }
        None
    }

    /// Whether `name` is listed.
    pub fn contains_key(&self, name: &str) -> (r: bool)
        requires
            self.wf(),
        ensures
            r == lookup(self@, name@) is Some,
    {
        self.find(name).is_some()
    }

    /// The entry listed under `name`.
    pub fn get(&self, name: &str) -> (r: Option<&Entry>)
        requires
            self.wf(),
        ensures
            match r {
                Some(e) => lookup(self@, name@) == Some(*e),
                None => lookup(self@, name@) is None,
            },
    {
        match self.find(name) {
            Some(i) => Some(&self.entries[i].1),
            None => None,
        }
    }

    /// Lists `entry` under `name` unless the name is taken; returns whether it was added.
    pub fn insert_entry(&mut self, name: String, entry: Entry) -> (r: bool)
        requires
            old(self).wf(),
        ensures
            final(self).wf(),
            r == (lookup(old(self)@, name@) is None),
            r ==> final(self)@ == old(self)@.push((name@, entry)),
            !r ==> final(self)@ == old(self)@,
            r ==> listing_total(final(self)@) == listing_total(old(self)@) + entry.spec_size(),
    {
        if self.find(name.as_str()).is_some() {
            return false;
        }
        let ghost s = self@;
        let ghost n = name@;
        proof {
            lemma_lookup_none(s, n);
            lemma_push(s, (n, entry));
        }
        self.entries.push((name, entry));
        assert(self@ =~= s.push((n, entry)));
        true
    }

    /// Adds a file under `filename`, which must not be listed yet.
    pub fn insert_file(&mut self, filename: &str, entry: FileEntry) -> (r: Result<(), MetadataError>)
        requires
            old(self).wf(),
        ensures
            final(self).wf(),
            lookup(old(self)@, filename@) is None ==> r is Ok && final(self)@ == old(self)@.push(
                (filename@, Entry::File(entry)),
            ) && listing_total(final(self)@) == listing_total(old(self)@) + entry.size,
            lookup(old(self)@, filename@) is Some ==> final(self)@ == old(self)@ && (r matches Err(
                MetadataError::EntryAlreadyExists(m),
            ) && m@ == filename@),
    {
        if self.contains_key(filename) {
            return Err(MetadataError::EntryAlreadyExists(filename.to_owned()));
        }
        self.insert_entry(filename.to_owned(), Entry::File(entry));
        Ok(())
    }

    /// Whether some entry has the content ID `cid`.
    pub fn cid_in_use(&self, cid: &String) -> (r: bool)
        ensures
            r == cid_used(self@, cid@),
    {
        let mut i: usize = 0;
        while i < self.entries.len()
            invariant
                i <= self@.len(),
                forall|j: int| 0 <= j < i ==> (#[trigger] self@[j]).1.spec_cid() != cid@,
            decreases self@.len() - i,
        {
            assert(self@[i as int].1 == self.entries@[i as int].1);
            if *self.entries[i].1.cid() == *cid {
                return true;
            }
            i = i + 1;
        }
        false
    }

    /// A random content ID that no entry of this listing has and that no
    /// name in `siblings` (the files and folders beside the listing) takes,
    /// either bare or as `<cid>.json`; none when every draw collided. Where no
    /// entry's ID and no sibling name has a length a content ID could clash
    /// with, the first draw succeeds.
    pub fn mint_cid(&self, siblings: &Vec<String>) -> (r: Option<String>)
        ensures
            r matches Some(c) ==> c@.len() == CID_LENGTH && !cid_used(self@, c@) && !sibling_clash(
                siblings@.map_values(|x: String| x@),
                c@,
            ) && forall|i: int| 0 <= i < c@.len() ==> is_cid_char(#[trigger] c@[i]),
            (forall|i: int| 0 <= i < self@.len() ==> (#[trigger] self@[i]).1.spec_cid().len()
                != CID_LENGTH) && (forall|k: int|
                0 <= k < siblings@.len() ==> (#[trigger] siblings@[k])@.len() != CID_LENGTH
                    && siblings@[k]@.len() != CID_LENGTH + 5) ==> r is Some,
    {
        let ghost free = (forall|i: int| 0 <= i < self@.len() ==> (#[trigger] self@[i]).1.spec_cid().len()
            != CID_LENGTH) && (forall|k: int|
            0 <= k < siblings@.len() ==> (#[trigger] siblings@[k])@.len() != CID_LENGTH
                && siblings@[k]@.len() != CID_LENGTH + 5);
        let mut k: usize = 0;
        while k < CID_ATTEMPTS
            invariant
                k <= CID_ATTEMPTS,
                free ==> k == 0,
                free == ((forall|i: int| 0 <= i < self@.len() ==> (#[trigger] self@[i]).1.spec_cid().len()
                    != CID_LENGTH) && (forall|k: int|
                    0 <= k < siblings@.len() ==> (#[trigger] siblings@[k])@.len() != CID_LENGTH
                        && siblings@[k]@.len() != CID_LENGTH + 5)),
            decreases CID_ATTEMPTS - k,
        {
            let c = generate_cid();
            if !self.cid_in_use(&c) && !clashes_with_siblings(siblings, &c) {
                return Some(c);
            }
            proof {
                if free {
                    if cid_used(self@, c@) {
                        let i = choose|i: int| 0 <= i < self@.len() && (#[trigger] self@[i]).1.spec_cid() == c@;
                        assert(self@[i].1.spec_cid().len() != CID_LENGTH);
                    } else {
                        let v = siblings@.map_values(|x: String| x@);
                        let j = choose|j: int| 0 <= j < v.len() && (#[trigger] v[j] == c@ || v[j] == c@ + json_suffix());
                        assert(v[j] == siblings@[j]@);
                    }
                }
            }
            k = k + 1;
        }
        None
    }
}

/// `.json`
pub open spec fn json_suffix() -> Seq<char> {
    seq!['.', 'j', 's', 'o', 'n']
}

/// Some name in `siblings` is `cid` itself or `<cid>.json`.
pub open spec fn sibling_clash(siblings: Seq<Seq<char>>, cid: Seq<char>) -> bool {
    exists|k: int| 0 <= k < siblings.len() && (#[trigger] siblings[k] == cid || siblings[k] == cid + json_suffix())
}

/// Whether some name in `siblings` is `cid` or `<cid>.json`.
fn clashes_with_siblings(siblings: &Vec<String>, cid: &String) -> (r: bool)
    ensures
        r == sibling_clash(siblings@.map_values(|x: String| x@), cid@),
{
    let ghost v = siblings@.map_values(|x: String| x@);
    let mut file = cid.clone();
    push_char(&mut file, '.');
    push_char(&mut file, 'j');
    push_char(&mut file, 's');
    push_char(&mut file, 'o');
    push_char(&mut file, 'n');
    assert(file@ =~= cid@ + json_suffix());
    let mut k: usize = 0;
    while k < siblings.len()
        invariant
            v == siblings@.map_values(|x: String| x@),
            file@ == cid@ + json_suffix(),
            k <= siblings@.len(),
            forall|j: int| 0 <= j < k ==> !(#[trigger] v[j] == cid@ || v[j] == cid@ + json_suffix()),
        decreases siblings@.len() - k,
    {
        assert(v[k as int] == siblings@[k as int]@);
        if siblings[k] == *cid || siblings[k] == file {
            return true;
        }
        k = k + 1;
    }
    false
}

/// The outcome of looking up one component of a path in its parent's listing.
#[derive(Debug)]
pub enum DirStep {
    /// The component is an existing subdirectory with this content ID.
    Existing(String),
    /// The component was missing; a subdirectory with this content ID was listed.
    Created(String),
}

/// Resolves `component` in `listing`: descends into an existing subdirectory,
/// refuses a file, and lists a new empty subdirectory under `fresh_cid`
/// created at `now` when the name is missing.
pub fn resolve_component(
    listing: &mut DirectoryListing,
    component: &str,
    fresh_cid: String,
    now: Timestamp,
) -> (r: Result<DirStep, MetadataError>)
    requires
        old(listing).wf(),
    ensures
        final(listing).wf(),
        match lookup(old(listing)@, component@) {
            Some(Entry::Directory(d)) => final(listing)@ == old(listing)@ && (r matches Ok(
                DirStep::Existing(c),
            ) && c@ == d.cid@),
            Some(Entry::File(_)) => final(listing)@ == old(listing)@ && (r matches Err(
                MetadataError::NotADirectory(m),
            ) && m@ == component@),
            None => final(listing)@ == old(listing)@.push(
                (component@, Entry::Directory(new_dir_info(fresh_cid, now))),
            ) && (r matches Ok(DirStep::Created(c)) && c@ == fresh_cid@),
        },
{
    match listing.get(component) {
        Some(Entry::Directory(info)) => {
            return Ok(DirStep::Existing(info.cid.clone()));
        },
        Some(Entry::File(_)) => {
            return Err(MetadataError::NotADirectory(component.to_owned()));
        },
        None => {},
    }
    let cid = fresh_cid.clone();
    let info = DirectoryInfo { cid: fresh_cid, size: 0, created_at: now, modified_at: now };
    listing.insert_entry(component.to_owned(), Entry::Directory(info));
    Ok(DirStep::Created(cid))
}

/// Records in a parent's listing that its subdirectory `child` grew by
/// `delta` bytes at `now` (the size saturates at `u64::MAX`). A name that is
/// missing or lists a file leaves the listing as it is.
pub fn record_child_growth(listing: &mut DirectoryListing, child: &str, delta: u64, now: Timestamp)
    requires
        old(listing).wf(),
    ensures
        final(listing).wf(),
        final(listing)@ == grown(old(listing)@, child@, delta, now),
{
    let ghost s = listing@;
    proof {
        lemma_grown(s, child@, delta, now);
    }
    match listing.find(child) {
        Some(i) => {
            let ghost old_entries = listing.entries@;
            let (name, entry) = listing.entry_at(i);
            match entry {
                Entry::Directory(d) => {
                    let info = DirectoryInfo {
                        cid: d.cid.clone(),
                        size: d.size.saturating_add(delta),
                        created_at: d.created_at,
                        modified_at: now,
                    };
                    let name = name.clone();
                    listing.entries.set(i, (name, Entry::Directory(info)));
                    assert forall|j: int| 0 <= j < s.len() && j != i implies s[j].0 != child@ by {
                        assert(s[i as int].0 == child@);
                    }
                    assert(listing@ =~= grown(s, child@, delta, now));
                },
                Entry::File(_) => {
                    assert forall|j: int| 0 <= j < s.len() && j != i implies s[j].0 != child@ by {
                        assert(s[i as int].0 == child@);
                    }
                    assert(listing@ =~= grown(s, child@, delta, now));
                },
            }
        },
        None => {
            proof {
                lemma_lookup_none(s, child@);
            }
            assert(listing@ =~= grown(s, child@, delta, now));
        },
    }
}

/// A listing holds at most one entry under any name, and looking the name up
/// gives that entry.
pub proof fn lemma_one_entry_per_name(l: DirectoryListing, name: Seq<char>, i: int, j: int)
    requires
        l.wf(),
        0 <= i < l@.len(),
        0 <= j < l@.len(),
        l@[i].0 == name,
        l@[j].0 == name,
    ensures
        i == j,
        lookup(l@, name) == Some(l@[i].1),
{
    lemma_lookup_at(l@, i);
    if i < j {
        assert(l@[i].0 != l@[j].0);
    } else if j < i {
        assert(l@[j].0 != l@[i].0);
    }
}

/// Sizes stay consistent up the tree: if a subdirectory's recorded size
/// equals the total of its own listing, and that listing then grows by
/// `delta` bytes while the parent records the same growth, the recorded size
/// again equals the listing's total, and the parent's own total grows by
/// `delta`, so the same holds one level further up.
pub proof fn lemma_growth_keeps_sizes_consistent(
    parent: ListingView,
    name: Seq<char>,
    child_before: ListingView,
    child_after: ListingView,
    delta: u64,
    now: Timestamp,
)
    requires
        names_distinct(parent),
        lookup(parent, name) matches Some(Entry::Directory(d)) && d.size == listing_total(
            child_before,
        ),
        listing_total(child_after) == listing_total(child_before) + delta,
        listing_total(child_after) <= u64::MAX,
    ensures
        names_distinct(grown(parent, name, delta, now)),
        lookup(grown(parent, name, delta, now), name) matches Some(Entry::Directory(d2))
            && d2.size == listing_total(child_after),
        listing_total(grown(parent, name, delta, now)) == listing_total(parent) + delta,
{
    lemma_grown(parent, name, delta, now);
}

/// Adding a file to a directory whose recorded size matches its listing, and
/// recording that growth in the parent, keeps the two equal.
pub proof fn lemma_file_insert_keeps_sizes_consistent(
    parent: ListingView,
    name: Seq<char>,
    child: ListingView,
    filename: Seq<char>,
    file: FileEntry,
    now: Timestamp,
)
    requires
        names_distinct(parent),
        lookup(parent, name) matches Some(Entry::Directory(d)) && d.size == listing_total(child),
        lookup(child, filename) is None,
        listing_total(child) + file.size <= u64::MAX,
    ensures
        lookup(grown(parent, name, file.size, now), name) matches Some(Entry::Directory(d2))
            && d2.size == listing_total(child.push((filename, Entry::File(file)))),
        listing_total(grown(parent, name, file.size, now)) == listing_total(parent) + file.size,
{
    lemma_push(child, (filename, Entry::File(file)));
    lemma_growth_keeps_sizes_consistent(
        parent,
        name,
        child,
        child.push((filename, Entry::File(file))),
        file.size,
        now,
    );
}

/// The listings from the root down a path: `ls[i + 1]` is the listing of the
/// directory `comps[i]` of `ls[i]`, and each such directory's recorded size
/// equals the total of its listing.
pub open spec fn path_consistent(ls: Seq<ListingView>, comps: Seq<Seq<char>>) -> bool {
    &&& ls.len() == comps.len() + 1
    &&& forall|i: int| 0 <= i < ls.len() ==> names_distinct(#[trigger] ls[i])
    &&& forall|i: int|
        0 <= i < comps.len() ==> (lookup(#[trigger] ls[i], comps[i]) matches Some(Entry::Directory(d))
            && d.size == listing_total(ls[i + 1]))
}

/// The listings down the path after `file` was listed under `filename` in
/// the last one and every ancestor recorded the growth at `now`.
pub open spec fn path_after_insert(
    ls: Seq<ListingView>,
    comps: Seq<Seq<char>>,
    filename: Seq<char>,
    file: FileEntry,
    now: Timestamp,
) -> Seq<ListingView> {
    Seq::new(
        ls.len(),
        |i: int|
            if i == comps.len() {
                ls[i].push((filename, Entry::File(file)))
            } else {
                grown(ls[i], comps[i], file.size, now)
            },
    )
}

/// Adding a file to a directory and propagating its size to every ancestor
/// up to the root keeps every directory's recorded size equal to the total
/// of its listing along the whole path; every listing's total grows by the
/// file's size. Listings off the path are not touched.
pub proof fn lemma_insert_and_propagate_keeps_path_consistent(
    ls: Seq<ListingView>,
    comps: Seq<Seq<char>>,
    filename: Seq<char>,
    file: FileEntry,
    now: Timestamp,
)
    requires
        path_consistent(ls, comps),
        lookup(ls[comps.len() as int], filename) is None,
        forall|i: int| 0 <= i < ls.len() ==> listing_total(#[trigger] ls[i]) + file.size <= u64::MAX,
    ensures
        path_consistent(path_after_insert(ls, comps, filename, file, now), comps),
        forall|i: int|
            0 <= i < ls.len() ==> listing_total(
                #[trigger] path_after_insert(ls, comps, filename, file, now)[i],
            ) == listing_total(ls[i]) + file.size,
{
    let n = comps.len() as int;
    let after = path_after_insert(ls, comps, filename, file, now);
    assert forall|i: int| 0 <= i < ls.len() implies listing_total(#[trigger] after[i]) == listing_total(ls[i])
        + file.size && names_distinct(after[i]) by {
        if i == n {
            lemma_push(ls[i], (filename, Entry::File(file)));
            lemma_lookup_none(ls[i], filename);
            assert(names_distinct(after[i])) by {
                assert forall|a: int, b: int| 0 <= a < b < after[i].len() implies #[trigger] after[i][a].0
                    != #[trigger] after[i][b].0 by {
                    if b == ls[i].len() {
                        assert(after[i][b].0 == filename);
                        assert(after[i][a] == ls[i][a]);
                    } else {
                        assert(after[i][a] == ls[i][a] && after[i][b] == ls[i][b]);
                    }
                }
            }
        } else {
            lemma_grown(ls[i], comps[i], file.size, now);
            assert(listing_total(ls[i + 1]) + file.size <= u64::MAX);
        }
    }
    assert forall|i: int| 0 <= i < comps.len() implies (lookup(#[trigger] after[i], comps[i]) matches Some(
        Entry::Directory(d),
    ) && d.size == listing_total(after[i + 1])) by {
        lemma_grown(ls[i], comps[i], file.size, now);
        assert(listing_total(after[i + 1]) == listing_total(ls[i + 1]) + file.size);
        assert(listing_total(ls[i + 1]) + file.size <= u64::MAX);
    }
}

/// Listing a second file beside a first one, under another name and with a
/// content ID minted against the listing (as `mint_cid` guarantees), leaves
/// two distinct entries with distinct content IDs.
pub proof fn lemma_two_files_two_entries(
    l: ListingView,
    n1: Seq<char>,
    f1: FileEntry,
    n2: Seq<char>,
    f2: FileEntry,
)
    requires
        names_distinct(l),
        lookup(l, n1) is None,
        lookup(l, n2) is None,
        n1 != n2,
        !cid_used(l.push((n1, Entry::File(f1))), f2.cid@),
    ensures
        lookup(l.push((n1, Entry::File(f1))).push((n2, Entry::File(f2))), n1) == Some(Entry::File(f1)),
        lookup(l.push((n1, Entry::File(f1))).push((n2, Entry::File(f2))), n2) == Some(Entry::File(f2)),
        f1.cid@ != f2.cid@,
{
    let l1 = l.push((n1, Entry::File(f1)));
    lemma_push(l, (n1, Entry::File(f1)));
    lemma_push(l1, (n2, Entry::File(f2)));
    assert(l1[l.len() as int].1.spec_cid() == f1.cid@);
}

} // verus!
