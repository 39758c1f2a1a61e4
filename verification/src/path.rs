//! The candidates: the names of the executable files that a walk through
//! the search path comes by, each once, in ascending order.

use vstd::prelude::*;
use vstd::utf8::encode_utf8;

verus! {

/// The permission bits that let someone execute a file.
pub const EXECUTE_BITS: u32 = 0o111;

/// What a walk through a directory learns of one entry.
#[derive(Debug)]
pub struct Entry {
    pub name: String,
    pub is_file: bool,
    pub mode: u32,
}

impl DeepView for Entry {
    type V = (Seq<char>, bool, u32);

    open spec fn deep_view(&self) -> (Seq<char>, bool, u32) {
        (self.name@, self.is_file, self.mode)
    }
}

/// Whether an entry is a file that someone may execute.
pub open spec fn executable(is_file: bool, mode: u32) -> bool {
    is_file && mode & EXECUTE_BITS != 0
}

/// The names kept after `name` was offered: a name is kept where it names
/// an executable file and was not kept before.
pub open spec fn offered(kept: Seq<Seq<char>>, name: Seq<char>, is_file: bool, mode: u32) -> Seq<
    Seq<char>,
> {
    if kept.contains(name) || !executable(is_file, mode) {
        kept
    } else {
        kept.push(name)
    }
}

/// The names kept of the first `n` entries, in the order of the walk.
pub open spec fn collected(entries: Seq<(Seq<char>, bool, u32)>, n: nat) -> Seq<Seq<char>>
    decreases n,
{
    if n == 0 || n > entries.len() {
        Seq::empty()
    } else {
        offered(collected(entries, (n - 1) as nat), entries[n - 1].0, entries[n - 1].1, entries[n - 1].2)
    }
}

/// The order of names: byte by byte, a shorter name before its extensions.
pub open spec fn lex_less(a: Seq<u8>, b: Seq<u8>) -> bool
    decreases a.len(),
{
    if b.len() == 0 {
        false
    } else if a.len() == 0 {
        true
    } else if a[0] != b[0] {
        a[0] < b[0]
    } else {
        lex_less(a.drop_first(), b.drop_first())
    }
}

/// Whether the name `a` comes before the name `b`.
pub open spec fn name_less(a: Seq<char>, b: Seq<char>) -> bool {
    lex_less(encode_utf8(a), encode_utf8(b))
}

/// The place of `name` in `sorted`: behind every leading name that it does
/// not come before.
pub open spec fn place(sorted: Seq<Seq<char>>, name: Seq<char>) -> int
    decreases sorted.len(),
{
    if sorted.len() == 0 || name_less(name, sorted[0]) {
        0
    } else {
        1 + place(sorted.drop_first(), name)
    }
}

/// The first `n` names in ascending order.
pub open spec fn sorted_prefix(names: Seq<Seq<char>>, n: nat) -> Seq<Seq<char>>
    decreases n,
{
    if n == 0 || n > names.len() {
        Seq::empty()
    } else {
        let rest = sorted_prefix(names, (n - 1) as nat);
        rest.insert(place(rest, names[n - 1]), names[n - 1])
    }
}

/// The names in ascending order.
pub open spec fn sorted(names: Seq<Seq<char>>) -> Seq<Seq<char>> {
    sorted_prefix(names, names.len())
}

/// Whether no name of `names` comes before an earlier one.
pub open spec fn ascending(names: Seq<Seq<char>>) -> bool {
    forall|i: int, j: int| 0 <= i < j < names.len() ==> !name_less(#[trigger] names[j], #[trigger] names[i])
}

/// What the candidates are: the kept names of all entries, sorted.
pub open spec fn path_built(entries: Seq<(Seq<char>, bool, u32)>) -> Seq<Seq<char>> {
    sorted(collected(entries, entries.len()))
}

/// Compares two names byte by byte.
pub fn bytes_less(a: &[u8], b: &[u8]) -> (r: bool)
    ensures
        r == lex_less(a@, b@),
{
    let mut i: usize = 0;
    proof {
        assert(a@.skip(0) =~= a@);
        assert(b@.skip(0) =~= b@);
    }
    while i < a.len() && i < b.len()
        invariant
            i <= a@.len(),
            i <= b@.len(),
            lex_less(a@, b@) == lex_less(a@.skip(i as int), b@.skip(i as int)),
        decreases a@.len() - i,
    {
        proof {
            let x = a@.skip(i as int);
            let y = b@.skip(i as int);
            assert(x[0] == a@[i as int] && y[0] == b@[i as int]);
            assert(x.drop_first() =~= a@.skip(i + 1));
            assert(y.drop_first() =~= b@.skip(i + 1));
        }
        if a[i] != b[i] {
            return a[i] < b[i];
        }
        i = i + 1;
    }
    proof {
        assert(a@.skip(i as int).len() == a@.len() - i);
        assert(b@.skip(i as int).len() == b@.len() - i);
    }
    i < b.len()
}

/// No name comes before itself.
pub proof fn lemma_lex_irreflexive(a: Seq<u8>)
    ensures
        !lex_less(a, a),
    decreases a.len(),
{
    if a.len() > 0 {
        lemma_lex_irreflexive(a.drop_first());
    }
}

/// Of two names, at most one comes before the other.
pub proof fn lemma_lex_asymmetric(a: Seq<u8>, b: Seq<u8>)
    requires
        lex_less(a, b),
    ensures
        !lex_less(b, a),
    decreases a.len(),
{
    if a.len() > 0 && a[0] == b[0] {
        lemma_lex_asymmetric(a.drop_first(), b.drop_first());
    }
}

/// A name that comes before a second comes before every third that does
/// not come before the second.
pub proof fn lemma_lex_transitive(a: Seq<u8>, b: Seq<u8>, c: Seq<u8>)
    requires
        lex_less(a, b),
        !lex_less(c, b),
    ensures
        lex_less(a, c),
    decreases a.len(),
{
    if a.len() > 0 && a[0] == b[0] && c[0] == b[0] {
        lemma_lex_transitive(a.drop_first(), b.drop_first(), c.drop_first());
    }
}

/// Every name before the place of `name` does not come behind it, and the
/// name at the place does.
pub proof fn lemma_place(sorted: Seq<Seq<char>>, name: Seq<char>)
    ensures
        0 <= place(sorted, name) <= sorted.len(),
        forall|a: int| 0 <= a < place(sorted, name) ==> !name_less(name, #[trigger] sorted[a]),
        place(sorted, name) < sorted.len() ==> name_less(name, sorted[place(sorted, name)]),
    decreases sorted.len(),
{
    if sorted.len() == 0 || name_less(name, sorted[0]) {
    } else {
        let tail = sorted.drop_first();
        lemma_place(tail, name);
        let p = place(tail, name);
        assert forall|a: int| 0 <= a < p + 1 implies !name_less(name, #[trigger] sorted[a]) by {
            if a > 0 {
                assert(sorted[a] == tail[a - 1]);
            }
        }
        if p + 1 < sorted.len() {
            assert(sorted[p + 1] == tail[p]);
        }
    }
}

/// The place is the one place `p` with no name behind `name` before it and
/// such a name at it.
pub proof fn lemma_place_is(sorted: Seq<Seq<char>>, name: Seq<char>, p: int)
    requires
        0 <= p <= sorted.len(),
        forall|a: int| 0 <= a < p ==> !name_less(name, #[trigger] sorted[a]),
        p < sorted.len() ==> name_less(name, sorted[p]),
    ensures
        place(sorted, name) == p,
{
    lemma_place(sorted, name);
    let q = place(sorted, name);
    if q < p {
        assert(!name_less(name, sorted[q]));
    }
    if p < q {
        assert(!name_less(name, sorted[p]));
    }
}

/// Sorting keeps every name, adds none, and leaves them in ascending
/// order.
pub proof fn lemma_sorted_prefix(names: Seq<Seq<char>>, n: nat)
    requires
        n <= names.len(),
    ensures
        sorted_prefix(names, n).len() == n,
        ascending(sorted_prefix(names, n)),
        forall|name: Seq<char>|
            #[trigger] sorted_prefix(names, n).contains(name) <==> names.take(n as int).contains(
                name,
            ),
    decreases n,
{
    if n == 0 {
        assert(names.take(0) =~= Seq::<Seq<char>>::empty());
    } else {
        let rest = sorted_prefix(names, (n - 1) as nat);
        lemma_sorted_prefix(names, (n - 1) as nat);
        let name = names[n - 1];
        let p = place(rest, name);
        lemma_place(rest, name);
        let out = rest.insert(p, name);
        assert forall|i: int, j: int| 0 <= i < j < out.len() implies !name_less(
            #[trigger] out[j],
            #[trigger] out[i],
        ) by {
            if j < p {
                assert(out[i] == rest[i] && out[j] == rest[j]);
            } else if j == p {
                assert(out[i] == rest[i]);
                assert(!name_less(name, rest[i]));
            } else if i < p {
                assert(out[i] == rest[i] && out[j] == rest[j - 1]);
            } else if i == p {
                assert(out[j] == rest[j - 1]);
                assert(!name_less(rest[j - 1], rest[p]) || j - 1 == p);
                if name_less(rest[j - 1], name) {
                    lemma_lex_asymmetric(encode_utf8(name), encode_utf8(rest[p]));
                    lemma_lex_transitive(
                        encode_utf8(rest[j - 1]),
                        encode_utf8(name),
                        encode_utf8(rest[p]),
                    );
                    lemma_lex_irreflexive(encode_utf8(rest[p]));
                }
            } else {
                assert(out[i] == rest[i - 1] && out[j] == rest[j - 1]);
            }
        }
        let before = names.take((n - 1) as int);
        let now = names.take(n as int);
        assert forall|x: Seq<char>| #[trigger] out.contains(x) <==> now.contains(x) by {
            if out.contains(x) {
                let k = choose|k: int| 0 <= k < out.len() && out[k] == x;
                if k == p {
                    assert(now[n - 1] == x);
                } else {
                    if k < p {
                        assert(rest[k] == x);
                    } else {
                        assert(rest[k - 1] == x);
                    }
                    assert(rest.contains(x));
                    assert(before.contains(x));
                    let m = choose|m: int| 0 <= m < before.len() && before[m] == x;
                    assert(now[m] == x);
                }
            }
            if now.contains(x) {
                let m = choose|m: int| 0 <= m < now.len() && now[m] == x;
                if m == n - 1 {
                    assert(out[p] == x);
                } else {
                    assert(before[m] == x);
                    assert(before.contains(x));
                    assert(rest.contains(x));
                    let k = choose|k: int| 0 <= k < rest.len() && rest[k] == x;
                    if k < p {
                        assert(out[k] == x);
                    } else {
                        assert(out[k + 1] == x);
                    }
                }
            }
        }
    }
}

/// The candidates are in ascending order, and they are the kept names.
pub proof fn lemma_path_built(entries: Seq<(Seq<char>, bool, u32)>)
    ensures
        ascending(path_built(entries)),
        path_built(entries).len() == collected(entries, entries.len()).len(),
        forall|name: Seq<char>|
            #[trigger] path_built(entries).contains(name) <==> collected(
                entries,
                entries.len(),
            ).contains(name),
{
    let kept = collected(entries, entries.len());
    lemma_sorted_prefix(kept, kept.len());
    assert(kept.take(kept.len() as int) =~= kept);
}

/// The kept names are those of the executable files among the entries,
/// and no name is kept twice.
pub proof fn lemma_collected(entries: Seq<(Seq<char>, bool, u32)>, n: nat)
    requires
        n <= entries.len(),
    ensures
        forall|name: Seq<char>|
            #[trigger] collected(entries, n).contains(name) <==> exists|k: int|
                0 <= k < n && entries[k].0 == name && executable(entries[k].1, entries[k].2),
        forall|i: int, j: int|
            0 <= i < j < collected(entries, n).len() ==> collected(entries, n)[i] != collected(
                entries,
                n,
            )[j],
    decreases n,
{
    if n > 0 {
        let before = collected(entries, (n - 1) as nat);
        lemma_collected(entries, (n - 1) as nat);
        let e = entries[n - 1];
        let now = collected(entries, n);
        assert forall|name: Seq<char>| #[trigger] now.contains(name) <==> exists|k: int|
            0 <= k < n && entries[k].0 == name && executable(entries[k].1, entries[k].2) by {
            if now.contains(name) {
                let a = choose|a: int| 0 <= a < now.len() && now[a] == name;
                if a < before.len() {
                    assert(before[a] == name);
                    assert(before.contains(name));
                    let k = choose|k: int|
                        0 <= k < n - 1 && entries[k].0 == name && executable(
                            entries[k].1,
                            entries[k].2,
                        );
                    assert(0 <= k < n && entries[k].0 == name && executable(
                        entries[k].1,
                        entries[k].2,
                    ));
                } else {
                    assert(entries[n - 1].0 == name && executable(e.1, e.2));
                }
            }
            if exists|k: int|
                0 <= k < n && entries[k].0 == name && executable(entries[k].1, entries[k].2) {
                let k = choose|k: int|
                    0 <= k < n && entries[k].0 == name && executable(entries[k].1, entries[k].2);
                if k < n - 1 {
                    assert(before.contains(name));
                    let a = choose|a: int| 0 <= a < before.len() && before[a] == name;
                    assert(now[a] == name);
                } else if before.contains(name) {
                } else {
                    assert(now[before.len() as int] == name);
                }
            }
        }
        assert forall|i: int, j: int| 0 <= i < j < now.len() implies now[i] != now[j] by {
            if j == before.len() {
                assert(before[i] == now[i]);
                assert(before.contains(now[i]));
            }
        }
    }
}

/// The names of executable files seen so far, each once.
pub struct Executables {
    names: Vec<String>,
}

impl View for Executables {
    type V = Seq<Seq<char>>;

    closed spec fn view(&self) -> Seq<Seq<char>> {
        self.names.deep_view()
    }
}

impl Executables {
    /// No names yet.
    pub fn new() -> (r: Executables)
        ensures
            r@ == Seq::<Seq<char>>::empty(),
    {
        let names: Vec<String> = Vec::new();
        proof {
            assert(names.deep_view() =~= Seq::<Seq<char>>::empty());
        }
        Executables { names }
    }

    /// Whether `name` is kept already, so that nothing more needs to be
    /// learnt of its entry.
    pub fn contains(&self, name: &str) -> (r: bool)
        ensures
            r == self@.contains(name@),
    {
        let mut i: usize = 0;
        while i < self.names.len()
            invariant
                i <= self.names@.len(),
                forall|k: int| 0 <= k < i ==> self.names.deep_view()[k] != name@,
            decreases self.names@.len() - i,
        {
            proof {
                assert(self.names.deep_view()[i as int] == self.names@[i as int]@);
            }
            if equal_names(self.names[i].as_str(), name) {
                return true;
            }
            i = i + 1;
        }
        false
    }

    /// Offers the name of an entry with what was learnt of it.
    pub fn offer(&mut self, name: String, is_file: bool, mode: u32)
        ensures
            final(self)@ == offered(old(self)@, name@, is_file, mode),
    {
        if !self.contains(name.as_str()) && is_file && mode & EXECUTE_BITS != 0 {
            let ghost before = self.names.deep_view();
            self.names.push(name);
            proof {
                assert(self.names.deep_view() =~= before.push(name@));
            }
        }
    }

    /// The kept names in ascending order.
    pub fn into_sorted(self) -> (r: Vec<String>)
        ensures
            r.deep_view() == sorted(self@),
    {
        let names = self.names;
        let ghost all = names.deep_view();
        let mut out: Vec<String> = Vec::new();
        let mut i: usize = 0;
        proof {
            assert(out.deep_view() =~= sorted_prefix(all, 0));
        }
        while i < names.len()
            invariant
                i <= names@.len(),
                all == names.deep_view(),
                all.len() == names@.len(),
                out.deep_view() == sorted_prefix(all, i as nat),
            decreases names@.len() - i,
        {
            let name = &names[i];
            proof {
                assert(all[i as int] == name@);
                lemma_sorted_prefix(all, i as nat);
            }
            let mut p: usize = 0;
            while p < out.len() && !bytes_less(name.as_str().as_bytes(), out[p].as_str().as_bytes())
                invariant
                    p <= out@.len(),
                    out@.len() == out.deep_view().len(),
                    forall|a: int| 0 <= a < p ==> !name_less(name@, #[trigger] out.deep_view()[a]),
                decreases out@.len() - p,
            {
                proof {
                    assert(out.deep_view()[p as int] == out@[p as int]@);
                }
                p = p + 1;
            }
            proof {
                if p < out@.len() {
                    assert(out.deep_view()[p as int] == out@[p as int]@);
                }
                lemma_place_is(out.deep_view(), name@, p as int);
            }
            let ghost before = out.deep_view();
            out.insert(p, name.clone());
            proof {
                assert(out.deep_view() =~= before.insert(p as int, name@));
            }
            i = i + 1;
        }
        out
    }
}

/// Whether two names are the same.
fn equal_names(a: &str, b: &str) -> (r: bool)
    ensures
        r == (a@ == b@),
{
    let x = a.as_bytes();
    let y = b.as_bytes();
    if x.len() != y.len() {
        return false;
    }
    let mut i: usize = 0;
    while i < x.len()
        invariant
            i <= x@.len(),
            x@.len() == y@.len(),
            x@ == encode_utf8(a@),
            y@ == encode_utf8(b@),
            forall|k: int| 0 <= k < i ==> x@[k] == y@[k],
        decreases x@.len() - i,
    {
        if x[i] != y[i] {
            return false;
        }
        i = i + 1;
    }
    proof {
        assert(x@ =~= y@);
        vstd::utf8::encode_utf8_decode_utf8(a@);
        vstd::utf8::encode_utf8_decode_utf8(b@);
    }
    true
}

/// The candidates for a walk that saw `entries`: the names of the
/// executable files among them, each once, in ascending order.
pub fn build_path(entries: &Vec<Entry>) -> (r: Vec<String>)
    ensures
        r.deep_view() == path_built(entries.deep_view()),
{
    let mut executables = Executables::new();
    let mut i: usize = 0;
    while i < entries.len()
        invariant
            i <= entries@.len(),
            entries.deep_view().len() == entries@.len(),
            executables@ == collected(entries.deep_view(), i as nat),
        decreases entries@.len() - i,
    {
        let entry = &entries[i];
        proof {
            assert(entries.deep_view()[i as int] == entry.deep_view());
        }
        executables.offer(entry.name.clone(), entry.is_file, entry.mode);
        i = i + 1;
    }
    executables.into_sorted()
}

} // verus!
