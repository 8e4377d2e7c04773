//! Directory entries and file metadata: what a listing reports for each
//! entry, and the order in which a listing is shown.

use vstd::prelude::*;
use crate::text::chars_of;
use vstd::multiset::Multiset;

verus! {

broadcast use vstd::seq_lib::group_to_multiset_ensures;

/// One entry of a directory listing.
#[derive(Debug)]
pub struct DirEntry {
    pub name: String,
    pub path: String,
    pub is_dir: bool,
    pub is_file: bool,
    pub is_symlink: bool,
    pub size: u64,
    pub modified: u64,
}

/// Metadata about a file or directory.
#[derive(Debug)]
pub struct FileStat {
    pub size: u64,
    pub modified: u64,
    pub created: u64,
    pub is_dir: bool,
    pub is_file: bool,
    pub is_symlink: bool,
    pub readonly: bool,
}

/// Whether an entry is reported as a directory and as a file. A symbolic link
/// reports what it points to (`target`), and reports neither when the target
/// cannot be read (a broken link); any other entry reports its own type.
pub open spec fn spec_entry_kind(
    is_symlink: bool,
    own_is_dir: bool,
    own_is_file: bool,
    target: Option<(bool, bool)>,
) -> (bool, bool) {
    if is_symlink {
        match target {
            Some(t) => t,
            None => (false, false),
        }
    } else {
        (own_is_dir, own_is_file)
    }
}

/// The directory and file flags reported for an entry (see
/// [`spec_entry_kind`]).
pub fn entry_kind(
    is_symlink: bool,
    own_is_dir: bool,
    own_is_file: bool,
    target: Option<(bool, bool)>,
) -> (r: (bool, bool))
    ensures
        r == spec_entry_kind(is_symlink, own_is_dir, own_is_file, target),
{
    if is_symlink {
        match target {
            Some(t) => t,
            None => (false, false),
        }
    } else {
        (own_is_dir, own_is_file)
    }
}

/// Seconds since the Unix epoch, or 0 when the time is unknown or earlier.
pub fn seconds_or_zero(secs: Option<u64>) -> (r: u64)
    ensures
        r == match secs {
            Some(s) => s,
            None => 0,
        },
{
    match secs {
        Some(s) => s,
        None => 0,
    }
}

impl DirEntry {
    /// Builds a listing entry from what was read about it: its own type
    /// flags, the type flags of a link's target when it could be read, its
    /// size, and its modification time in seconds since the epoch.
    pub fn from_parts(
        name: String,
        path: String,
        is_symlink: bool,
        own_is_dir: bool,
        own_is_file: bool,
        target: Option<(bool, bool)>,
        size: u64,
        modified: Option<u64>,
    ) -> (r: DirEntry)
        ensures
            r.name == name,
            r.path == path,
            r.is_symlink == is_symlink,
            (r.is_dir, r.is_file) == spec_entry_kind(is_symlink, own_is_dir, own_is_file, target),
            r.size == size,
            r.modified == (match modified {
                Some(s) => s,
                None => 0,
            }),
    {
        let (is_dir, is_file) = entry_kind(is_symlink, own_is_dir, own_is_file, target);
        DirEntry {
            name,
            path,
            is_dir,
            is_file,
            is_symlink,
            size,
            modified: seconds_or_zero(modified),
        }
    }
}

impl FileStat {
    /// Builds the metadata of a path from what was read about it without
    /// following links, plus the type flags of a link's target when it could
    /// be read.
    pub fn from_parts(
        size: u64,
        modified: Option<u64>,
        created: Option<u64>,
        is_symlink: bool,
        own_is_dir: bool,
        own_is_file: bool,
        target: Option<(bool, bool)>,
        readonly: bool,
    ) -> (r: FileStat)
        ensures
            r.size == size,
            r.modified == (match modified {
                Some(s) => s,
                None => 0,
            }),
            r.created == (match created {
                Some(s) => s,
                None => 0,
            }),
            r.is_symlink == is_symlink,
            (r.is_dir, r.is_file) == spec_entry_kind(is_symlink, own_is_dir, own_is_file, target),
            r.readonly == readonly,
    {
        let (is_dir, is_file) = entry_kind(is_symlink, own_is_dir, own_is_file, target);
        FileStat {
            size,
            modified: seconds_or_zero(modified),
            created: seconds_or_zero(created),
            is_dir,
            is_file,
            is_symlink,
            readonly,
        }
    }
}

/// ASCII lower case: `A`..`Z` become `a`..`z`, other characters stay.
pub open spec fn ascii_lower(c: char) -> char {
    if 'A' <= c && c <= 'Z' {
        ((c as int) + 32) as char
    } else {
        c
    }
}

/// A name with its ASCII letters in lower case.
pub open spec fn lower_name(s: Seq<char>) -> Seq<char> {
    s.map_values(|c: char| ascii_lower(c))
}

/// Lexicographic order on character sequences, by code point, a proper
/// prefix coming first.
pub open spec fn lex_le(a: Seq<char>, b: Seq<char>) -> bool
    decreases a.len(),
{
    if a.len() == 0 {
        true
    } else if b.len() == 0 {
        false
    } else if a[0] != b[0] {
        a[0] < b[0]
    } else {
        lex_le(a.drop_first(), b.drop_first())
    }
}

/// The listing order: directories before everything else, then names
/// compared with ASCII letters folded to lower case.
pub open spec fn entry_le(a: DirEntry, b: DirEntry) -> bool {
    if a.is_dir != b.is_dir {
        a.is_dir
    } else {
        lex_le(lower_name(a.name@), lower_name(b.name@))
    }
}

/// Whether a sequence of entries is in listing order.
pub open spec fn is_listing_order(s: Seq<DirEntry>) -> bool {
    forall|i: int, j: int| 0 <= i < j < s.len() ==> entry_le(#[trigger] s[i], #[trigger] s[j])
}

/// Any two character sequences are ordered one way or the other.
pub proof fn lemma_lex_le_total(a: Seq<char>, b: Seq<char>)
    ensures
        lex_le(a, b) || lex_le(b, a),
    decreases a.len(),
{
    if a.len() > 0 && b.len() > 0 && a[0] == b[0] {
        lemma_lex_le_total(a.drop_first(), b.drop_first());
    }
}

/// Directories come first: an entry reported as a directory (a link to a
/// directory included) comes strictly before every entry that is not, and
/// the links among them play no part in that.
pub proof fn lemma_directories_first(a: DirEntry, b: DirEntry)
    requires
        a.is_dir,
        !b.is_dir,
    ensures
        entry_le(a, b),
        !entry_le(b, a),
{
}

/// Entries of the same kind are ordered by their names with ASCII letters
/// folded to lower case.
pub proof fn lemma_same_kind_by_name(a: DirEntry, b: DirEntry)
    requires
        a.is_dir == b.is_dir,
    ensures
        entry_le(a, b) <==> lex_le(lower_name(a.name@), lower_name(b.name@)),
{
}

/// Folding to lower case keeps the length, turns each ASCII capital into
/// its small letter (32 code points further on) and leaves every other
/// character as it is.
pub proof fn lemma_lower_name(s: Seq<char>)
    ensures
        lower_name(s).len() == s.len(),
        forall|i: int|
            0 <= i < s.len() ==> {
                &&& ('A' <= s[i] && s[i] <= 'Z') ==> (#[trigger] lower_name(s)[i]) as int == s[i] as int
                    + 32
                &&& !('A' <= s[i] && s[i] <= 'Z') ==> lower_name(s)[i] == s[i]
            },
{
}

/// The lexicographic order: `a` comes no later than `b` exactly when `a` is
/// a prefix of `b`, or at the first position where they differ `a` has the
/// smaller character.
pub proof fn lemma_lex_le_meaning(a: Seq<char>, b: Seq<char>)
    ensures
        lex_le(a, b) <==> ((a.len() <= b.len() && a == b.take(a.len() as int)) || exists|k: int|
            0 <= k < a.len() && k < b.len() && a.take(k) == b.take(k) && #[trigger] a[k] < b[k]),
    decreases a.len(),
{
    if a.len() == 0 {
        assert(a =~= b.take(0));
    } else if b.len() == 0 {
        assert(!(a.len() <= b.len()));
    } else if a[0] != b[0] {
        if a[0] < b[0] {
            assert(a.take(0) =~= b.take(0));
            assert(0 < a.len() && 0 < b.len() && a.take(0) == b.take(0) && a[0] < b[0]);
        } else {
            assert(!(a.len() <= b.len() && a == b.take(a.len() as int))) by {
                if a.len() <= b.len() {
                    assert(b.take(a.len() as int)[0] == b[0]);
                }
            }
            assert forall|k: int|
                0 <= k < a.len() && k < b.len() && a.take(k) == b.take(k) implies !(#[trigger] a[k]
                < b[k]) by {
                if k > 0 {
                    assert(a.take(k)[0] == a[0]);
                    assert(b.take(k)[0] == b[0]);
                }
            }
        }
    } else {
        let a1 = a.drop_first();
        let b1 = b.drop_first();
        lemma_lex_le_meaning(a1, b1);
        if a.len() <= b.len() && a == b.take(a.len() as int) {
            assert(a1 =~= b1.take(a1.len() as int));
        }
        if a1.len() <= b1.len() && a1 == b1.take(a1.len() as int) {
            assert(a =~= b.take(a.len() as int)) by {
                assert forall|i: int| 0 <= i < a.len() implies #[trigger] a[i] == b.take(a.len() as int)[i] by {
                    if i > 0 {
                        assert(a[i] == a1[i - 1]);
                        assert(b1.take(a1.len() as int)[i - 1] == b1[i - 1]);
                    }
                }
            }
        }
        if exists|k: int|
            0 <= k < a1.len() && k < b1.len() && a1.take(k) == b1.take(k) && #[trigger] a1[k]
                < b1[k] {
            let k = choose|k: int|
                0 <= k < a1.len() && k < b1.len() && a1.take(k) == b1.take(k) && #[trigger] a1[k]
                    < b1[k];
            assert(a.take(k + 1) =~= b.take(k + 1)) by {
                assert forall|i: int| 0 <= i < k + 1 implies #[trigger] a.take(k + 1)[i] == b.take(k + 1)[i] by {
                    if i > 0 {
                        assert(a1.take(k)[i - 1] == b1.take(k)[i - 1]);
                    }
                }
            }
            assert(a[k + 1] < b[k + 1]);
        }
        if exists|k: int|
            0 <= k < a.len() && k < b.len() && a.take(k) == b.take(k) && #[trigger] a[k] < b[k] {
            let k = choose|k: int|
                0 <= k < a.len() && k < b.len() && a.take(k) == b.take(k) && #[trigger] a[k] < b[k];
            assert(k > 0);
            assert(a1.take(k - 1) =~= b1.take(k - 1)) by {
                assert forall|i: int| 0 <= i < k - 1 implies #[trigger] a1.take(k - 1)[i] == b1.take(k - 1)[i] by {
                    assert(a.take(k)[i + 1] == b.take(k)[i + 1]);
                }
            }
            assert(a1[k - 1] < b1[k - 1]);
        }
        if a.len() <= b.len() && a == b.take(a.len() as int) {
            assert(a1.len() <= b1.len() && a1 == b1.take(a1.len() as int));
        }
    }
}

/// Every character sequence comes no later than itself.
pub proof fn lemma_lex_le_reflexive(a: Seq<char>)
    ensures
        lex_le(a, a),
    decreases a.len(),
{
    if a.len() > 0 {
        lemma_lex_le_reflexive(a.drop_first());
    }
}

/// The lexicographic order is transitive.
pub proof fn lemma_lex_le_transitive(a: Seq<char>, b: Seq<char>, c: Seq<char>)
    requires
        lex_le(a, b),
        lex_le(b, c),
    ensures
        lex_le(a, c),
    decreases a.len(),
{
    if a.len() > 0 && b.len() > 0 && c.len() > 0 && a[0] == b[0] && b[0] == c[0] {
        lemma_lex_le_transitive(a.drop_first(), b.drop_first(), c.drop_first());
    }
}

/// The listing order is total.
pub proof fn lemma_entry_le_total(a: DirEntry, b: DirEntry)
    ensures
        entry_le(a, b) || entry_le(b, a),
{
    lemma_lex_le_total(lower_name(a.name@), lower_name(b.name@));
}

/// The listing order is transitive.
pub proof fn lemma_entry_le_transitive(a: DirEntry, b: DirEntry, c: DirEntry)
    requires
        entry_le(a, b),
        entry_le(b, c),
    ensures
        entry_le(a, c),
{
    if a.is_dir == b.is_dir && b.is_dir == c.is_dir {
        lemma_lex_le_transitive(lower_name(a.name@), lower_name(b.name@), lower_name(c.name@));
    }
}

/// ASCII lower case of a character (see [`ascii_lower`]).
pub fn ascii_lower_exec(c: char) -> (r: char)
    ensures
        r == ascii_lower(c),
{
    if 'A' <= c && c <= 'Z' {
        let b: u8 = (c as u8) + 32u8;
        b as char
    } else {
        c
    }
}

/// Whether `a` comes no later than `b` when names are compared with ASCII
/// letters folded to lower case.
pub fn name_le(a: &str, b: &str) -> (r: bool)
    ensures
        r == lex_le(lower_name(a@), lower_name(b@)),
{
    let x = chars_of(a);
    let y = chars_of(b);
    let ghost la = lower_name(a@);
    let ghost lb = lower_name(b@);
    let mut i: usize = 0;
    proof {
        assert(la.skip(0) =~= la);
        assert(lb.skip(0) =~= lb);
    }
    while i < x.len() && i < y.len() && ascii_lower_exec(x[i]) == ascii_lower_exec(y[i])
        invariant
            x@ == a@,
            y@ == b@,
            la == lower_name(a@),
            lb == lower_name(b@),
            i <= x.len(),
            i <= y.len(),
            lex_le(la, lb) == lex_le(la.skip(i as int), lb.skip(i as int)),
        decreases x.len() - i,
    {
        proof {
            assert(la.skip(i as int).drop_first() =~= la.skip(i + 1));
            assert(lb.skip(i as int).drop_first() =~= lb.skip(i + 1));
        }
        i = i + 1;
    }
    if i == x.len() {
        proof {
            assert(la.skip(i as int).len() == 0);
        }
        true
    } else if i == y.len() {
        proof {
            assert(lb.skip(i as int).len() == 0);
        }
        false
    } else {
        let p = ascii_lower_exec(x[i]);
        let q = ascii_lower_exec(y[i]);
        proof {
            assert(la.skip(i as int)[0] == p);
            assert(lb.skip(i as int)[0] == q);
        }
        p < q
    }
}

/// Whether `a` comes no later than `b` in listing order.
pub fn entry_before(a: &DirEntry, b: &DirEntry) -> (r: bool)
    ensures
        r == entry_le(*a, *b),
{
    if a.is_dir != b.is_dir {
        a.is_dir
    } else {
        name_le(a.name.as_str(), b.name.as_str())
    }
}

/// Merges two listings that are each in listing order.
fn merge_listings(left: Vec<DirEntry>, right: Vec<DirEntry>) -> (r: Vec<DirEntry>)
    requires
        is_listing_order(left@),
        is_listing_order(right@),
    ensures
        r@.to_multiset() == left@.to_multiset().add(right@.to_multiset()),
        is_listing_order(r@),
{
    let ghost total = left@.to_multiset().add(right@.to_multiset());
    let mut l = left;
    let mut rr = right;
    // Largest first: `desc` holds the entries taken so far, latest in order
    // last, and every entry still to take comes no later than them.
    let mut desc: Vec<DirEntry> = Vec::new();
    while l.len() > 0 || rr.len() > 0
        invariant
            is_listing_order(l@),
            is_listing_order(rr@),
            forall|i: int, j: int| 0 <= i < j < desc@.len() ==> entry_le(#[trigger] desc@[j], #[trigger] desc@[i]),
            forall|a: int, b: int| 0 <= a < l@.len() && 0 <= b < desc@.len() ==> entry_le(#[trigger] l@[a], #[trigger] desc@[b]),
            forall|a: int, b: int| 0 <= a < rr@.len() && 0 <= b < desc@.len() ==> entry_le(#[trigger] rr@[a], #[trigger] desc@[b]),
            desc@.to_multiset().add(l@.to_multiset()).add(rr@.to_multiset()) == total,
        decreases l.len() + rr.len(),
    {
        let take_left = if l.len() == 0 {
            false
        } else if rr.len() == 0 {
            true
        } else {
            !entry_before(&l[l.len() - 1], &rr[rr.len() - 1])
        };
        let ghost old_l = l@;
        let ghost old_r = rr@;
        let ghost old_desc = desc@;
        let x = if take_left {
            l.pop().unwrap()
        } else {
            rr.pop().unwrap()
        };
        proof {
            if take_left {
                assert(old_l =~= l@.push(x));
                if old_r.len() > 0 {
                    lemma_entry_le_total(x, old_r[old_r.len() - 1]);
                }
            } else {
                assert(old_r =~= rr@.push(x));
            }
            // x comes no earlier than every entry still to take.
            assert forall|a: int| 0 <= a < l@.len() implies entry_le(#[trigger] l@[a], x) by {
                assert(l@[a] == old_l[a]);
                if !take_left {
                    lemma_lex_le_reflexive(lower_name(old_l[a].name@));
                    assert(entry_le(old_l[a], old_l[old_l.len() - 1]));
                    lemma_entry_le_transitive(l@[a], old_l[old_l.len() - 1], x);
                }
            }
            assert forall|a: int| 0 <= a < rr@.len() implies entry_le(#[trigger] rr@[a], x) by {
                assert(rr@[a] == old_r[a]);
                if take_left {
                    lemma_lex_le_reflexive(lower_name(old_r[a].name@));
                    assert(entry_le(old_r[a], old_r[old_r.len() - 1]));
                    lemma_entry_le_transitive(rr@[a], old_r[old_r.len() - 1], x);
                }
            }
        }
        desc.push(x);
        proof {
            let d = desc@;
            assert(d =~= old_desc.push(x));
            assert forall|i: int, j: int| 0 <= i < j < d.len() implies entry_le(#[trigger] d[j], #[trigger] d[i]) by {
                if j == d.len() - 1 {
                    if take_left {
                        assert(entry_le(old_l[old_l.len() - 1], old_desc[i]));
                    } else {
                        assert(entry_le(old_r[old_r.len() - 1], old_desc[i]));
                    }
                } else {
                    assert(d[i] == old_desc[i] && d[j] == old_desc[j]);
                }
            }
            assert forall|a: int, b: int| 0 <= a < l@.len() && 0 <= b < d.len() implies entry_le(#[trigger] l@[a], #[trigger] d[b]) by {
                assert(l@[a] == old_l[a]);
                if b < d.len() - 1 {
                    assert(d[b] == old_desc[b]);
                }
            }
            assert forall|a: int, b: int| 0 <= a < rr@.len() && 0 <= b < d.len() implies entry_le(#[trigger] rr@[a], #[trigger] d[b]) by {
                assert(rr@[a] == old_r[a]);
                if b < d.len() - 1 {
                    assert(d[b] == old_desc[b]);
                }
            }
            assert(d.to_multiset() =~= old_desc.to_multiset().insert(x));
            if take_left {
                assert(old_l.to_multiset() =~= l@.to_multiset().insert(x));
            } else {
                assert(old_r.to_multiset() =~= rr@.to_multiset().insert(x));
            }
            assert(d.to_multiset().add(l@.to_multiset()).add(rr@.to_multiset()) =~= old_desc.to_multiset().add(old_l.to_multiset()).add(old_r.to_multiset()));
        }
    }
    proof {
        assert(l@.to_multiset() =~= Multiset::<DirEntry>::empty());
        assert(rr@.to_multiset() =~= Multiset::<DirEntry>::empty());
        assert(desc@.to_multiset() =~= total);
    }
    // Popping the largest-first sequence yields the listing order.
    let mut out: Vec<DirEntry> = Vec::new();
    while desc.len() > 0
        invariant
            forall|i: int, j: int| 0 <= i < j < desc@.len() ==> entry_le(#[trigger] desc@[j], #[trigger] desc@[i]),
            is_listing_order(out@),
            forall|a: int, b: int| 0 <= a < out@.len() && 0 <= b < desc@.len() ==> entry_le(#[trigger] out@[a], #[trigger] desc@[b]),
            out@.to_multiset().add(desc@.to_multiset()) == total,
        decreases desc.len(),
    {
        let ghost old_desc = desc@;
        let ghost old_out = out@;
        let x = desc.pop().unwrap();
        proof {
            assert(old_desc =~= desc@.push(x));
        }
        out.push(x);
        proof {
            let o = out@;
            assert(o =~= old_out.push(x));
            assert forall|i: int, j: int| 0 <= i < j < o.len() implies entry_le(#[trigger] o[i], #[trigger] o[j]) by {
                if j == o.len() - 1 {
                    assert(o[i] == old_out[i]);
                    assert(entry_le(old_out[i], old_desc[old_desc.len() - 1]));
                } else {
                    assert(o[i] == old_out[i] && o[j] == old_out[j]);
                }
            }
            assert forall|a: int, b: int| 0 <= a < o.len() && 0 <= b < desc@.len() implies entry_le(#[trigger] o[a], #[trigger] desc@[b]) by {
                assert(desc@[b] == old_desc[b]);
                if a == o.len() - 1 {
                    assert(entry_le(old_desc[old_desc.len() - 1], old_desc[b]));
                } else {
                    assert(o[a] == old_out[a]);
                }
            }
            assert(o.to_multiset() =~= old_out.to_multiset().insert(x));
            assert(old_desc.to_multiset() =~= desc@.to_multiset().insert(x));
            assert(o.to_multiset().add(desc@.to_multiset()) =~= old_out.to_multiset().add(old_desc.to_multiset()));
        }
    }
    proof {
        assert(desc@.to_multiset() =~= Multiset::<DirEntry>::empty());
        assert(out@.to_multiset() =~= total);
    }
    out
}

/// The entries in listing order: directories first, then by name with ASCII
/// letters folded to lower case. The result holds exactly the given entries;
/// entries that compare equal may come in either order.
pub fn sort_entries(entries: Vec<DirEntry>) -> (r: Vec<DirEntry>)
    ensures
        r@.to_multiset() == entries@.to_multiset(),
        is_listing_order(r@),
        forall|i: int, j: int| 0 <= i < j < r@.len() && (#[trigger] r@[j]).is_dir ==> (
        #[trigger] r@[i]).is_dir,
        forall|i: int, j: int|
            0 <= i < j < r@.len() && (#[trigger] r@[i]).is_dir == (#[trigger] r@[j]).is_dir ==> lex_le(
                lower_name(r@[i].name@),
                lower_name(r@[j].name@),
            ),
    decreases entries.len(),
{
    if entries.len() <= 1 {
        proof {
            lemma_listing_order_meaning(entries@);
        }
        return entries;
    }
    let mut left = entries;
    let ghost all = left@;
    let mid = left.len() / 2;
    let right = left.split_off(mid);
    proof {
        assert(all =~= left@ + right@);
        vstd::seq_lib::lemma_multiset_commutative(left@, right@);
    }
    let a = sort_entries(left);
    let b = sort_entries(right);
    let r = merge_listings(a, b);
    proof {
        lemma_listing_order_meaning(r@);
    }
    r
}

/// In a sequence in listing order, directories come before everything else,
/// and entries of the same kind come in order of their lower-cased names.
pub proof fn lemma_listing_order_meaning(s: Seq<DirEntry>)
    requires
        is_listing_order(s),
    ensures
        forall|i: int, j: int| 0 <= i < j < s.len() && (#[trigger] s[j]).is_dir ==> (
        #[trigger] s[i]).is_dir,
        forall|i: int, j: int|
            0 <= i < j < s.len() && (#[trigger] s[i]).is_dir == (#[trigger] s[j]).is_dir ==> lex_le(
                lower_name(s[i].name@),
                lower_name(s[j].name@),
            ),
{
    assert forall|i: int, j: int| 0 <= i < j < s.len() && (#[trigger] s[j]).is_dir implies (
    #[trigger] s[i]).is_dir by {
        assert(entry_le(s[i], s[j]));
        if !s[i].is_dir {
            lemma_directories_first(s[j], s[i]);
        }
    }
}

/// How many leading bytes of a file are examined for binary content.
pub const BINARY_PROBE_LEN: usize = 8192;

/// The bytes examined for binary content: the first `BINARY_PROBE_LEN`
/// bytes, or all of them when there are fewer.
pub open spec fn probed_prefix(bytes: Seq<u8>) -> Seq<u8> {
    if bytes.len() <= BINARY_PROBE_LEN {
        bytes
    } else {
        bytes.take(BINARY_PROBE_LEN as int)
    }
}

/// Content looks binary exactly when a NUL byte occurs among its first 8192
/// bytes (all of it, when it is shorter).
pub proof fn lemma_probed_prefix_meaning(bytes: Seq<u8>)
    ensures
        probed_prefix(bytes).contains(0u8) <==> exists|i: int|
            0 <= i < bytes.len() && i < 8192 && #[trigger] bytes[i] == 0u8,
{
    let p = probed_prefix(bytes);
    if p.contains(0u8) {
        let k = choose|k: int| 0 <= k < p.len() && p[k] == 0u8;
        assert(bytes[k] == 0u8);
    }
    if exists|i: int| 0 <= i < bytes.len() && i < 8192 && #[trigger] bytes[i] == 0u8 {
        let i = choose|i: int| 0 <= i < bytes.len() && i < 8192 && #[trigger] bytes[i] == 0u8;
        assert(p[i] == 0u8);
    }
}

/// Whether content looks binary: a NUL byte among its first 8 KiB.
pub fn is_binary_content(bytes: &[u8]) -> (r: bool)
    ensures
        r == probed_prefix(bytes@).contains(0u8),
        r == exists|i: int| 0 <= i < bytes@.len() && i < 8192 && #[trigger] bytes@[i] == 0u8,
{
    proof {
        lemma_probed_prefix_meaning(bytes@);
    }
    let n = if bytes.len() <= BINARY_PROBE_LEN {
        bytes.len()
    } else {
        BINARY_PROBE_LEN
    };
    let ghost p = probed_prefix(bytes@);
    let mut i: usize = 0;
    while i < n
        invariant
            n <= bytes.len(),
            p == probed_prefix(bytes@),
            p.len() == n,
            forall|j: int| 0 <= j < n ==> p[j] == bytes@[j],
            i <= n,
            forall|j: int| 0 <= j < i ==> p[j] != 0u8,
        decreases n - i,
    {
        if bytes[i] == 0u8 {
            proof {
                assert(p[i as int] == 0u8);
            }
            return true;
        }
        i = i + 1;
    }
    false
}

} // verus!
