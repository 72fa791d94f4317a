//! The IM module registry: parsing the lines of the GTK `immodules` file
//! into `(identifier, description)` entries and ordering them.
//!
//! A line describes a module when it starts with a double quote; the first
//! two quoted fields, separated by `" "`, are the module identifier and its
//! human-readable description. Other lines are ignored. The entries are
//! returned sorted by identifier, then by description.

use vstd::prelude::*;
use vstd::relations::sorted_by;
use vstd::multiset::Multiset;
use vstd::seq_lib::lemma_multiset_commutative;
use crate::text::find_char_idx;
use crate::text::lemma_find_char_bounds;
use crate::text::find_char_at;
use crate::text::lex_lt;
use crate::text::lex_le;
use crate::text::lex_cmp;
use crate::text::lemma_lex_trichotomy;
use crate::text::lemma_lex_trans;

verus! {

/// One entry of the registry: a module identifier and its description.
pub struct ImModule {
    pub id: String,
    pub description: String,
}

/// The mathematical value of an [`ImModule`]: its two fields as character
/// sequences.
#[verifier::ext_equal]
pub ghost struct ImModuleView {
    pub id: Seq<char>,
    pub description: Seq<char>,
}

impl View for ImModule {
    type V = ImModuleView;

    open spec fn view(&self) -> ImModuleView {
        ImModuleView { id: self.id@, description: self.description@ }
    }
}

/// The views of a sequence of entries.
pub open spec fn views_of(s: Seq<ImModule>) -> Seq<ImModuleView> {
    s.map_values(|m: ImModule| m@)
}

/// The field separator `" "` (quote, space, quote) occurs in `s` at `i`.
pub open spec fn sep_at(s: Seq<char>, i: int) -> bool {
    0 <= i && i + 3 <= s.len() && s[i] == '"' && s[i + 1] == ' ' && s[i + 2] == '"'
}

/// The position of the first field separator in `s`, or `s.len()` where
/// there is none.
pub open spec fn find_sep_idx(s: Seq<char>) -> int
    decreases s.len(),
{
    if s.len() < 3 {
        s.len() as int
    } else if sep_at(s, 0) {
        0
    } else {
        1 + find_sep_idx(s.drop_first())
    }
}

/// A scan that saw no separator before `k` and one at `k` has found
/// [`find_sep_idx`].
proof fn lemma_find_sep_found(s: Seq<char>, k: int)
    requires
        sep_at(s, k),
        forall|j: int| 0 <= j < k ==> !sep_at(s, j),
    ensures
        find_sep_idx(s) == k,
    decreases k,
{
    if k == 0 {
    } else {
        assert(s.len() >= 3);
        assert(!sep_at(s, 0));
        assert forall|j: int| 0 <= j < k - 1 implies !sep_at(s.drop_first(), j) by {
            if sep_at(s.drop_first(), j) {
                assert(s.drop_first()[j] == s[j + 1]);
                assert(s.drop_first()[j + 1] == s[j + 2]);
                assert(s.drop_first()[j + 2] == s[j + 3]);
                assert(sep_at(s, j + 1));
            }
        }
        assert(s.drop_first()[k - 1] == s[k]);
        assert(s.drop_first()[k] == s[k + 1]);
        assert(s.drop_first()[k + 1] == s[k + 2]);
        assert(sep_at(s.drop_first(), k - 1));
        lemma_find_sep_found(s.drop_first(), k - 1);
    }
}

/// A scan that saw no separator at all has [`find_sep_idx`] equal to the
/// length.
proof fn lemma_find_sep_absent(s: Seq<char>)
    requires
        forall|j: int| !sep_at(s, j),
    ensures
        find_sep_idx(s) == s.len(),
    decreases s.len(),
{
    if s.len() >= 3 {
        assert forall|j: int| !sep_at(s.drop_first(), j) by {
            if 0 <= j && j + 3 <= s.drop_first().len() {
                assert(s.drop_first()[j] == s[j + 1]);
                assert(s.drop_first()[j + 1] == s[j + 2]);
                assert(s.drop_first()[j + 2] == s[j + 3]);
                assert(!sep_at(s, j + 1));
            }
        }
        lemma_find_sep_absent(s.drop_first());
    }
}

/// The position of the first field separator in `s@` at or after `from`,
/// as an absolute index; `n` where there is none.
fn find_sep_at(s: &str, n: usize, from: usize) -> (r: usize)
    requires
        n == s@.len(),
        from <= n,
    ensures
        from <= r <= n,
        r - from == find_sep_idx(s@.skip(from as int)),
        r < n ==> sep_at(s@.skip(from as int), r - from),
{
    if n < 3 || from > n - 3 {
        proof {
            assert(s@.skip(from as int).len() < 3);
        }
        return n;
    }
    let limit = n - 3;
    let mut i: usize = from;
    while i <= limit
        invariant
            n == s@.len(),
            n >= 3,
            limit == n - 3,
            from <= i <= limit + 1,
            forall|j: int| 0 <= j < i - from ==> !sep_at(s@.skip(from as int), j),
        decreases limit + 1 - i,
    {
        let c0 = s.get_char(i);
        let c1 = s.get_char(i + 1);
        let c2 = s.get_char(i + 2);
        proof {
            let t = s@.skip(from as int);
            assert(t[i - from] == s@[i as int]);
            assert(t[i - from + 1] == s@[i + 1]);
            assert(t[i - from + 2] == s@[i + 2]);
        }
        if c0 == '"' && c1 == ' ' && c2 == '"' {
            proof {
                let t = s@.skip(from as int);
                assert(sep_at(t, i - from));
                lemma_find_sep_found(t, i - from);
            }
            return i;
        }
        proof {
            assert(!sep_at(s@.skip(from as int), i - from));
        }
        i = i + 1;
    }
    proof {
        let t = s@.skip(from as int);
        assert forall|j: int| !sep_at(t, j) by {
            if 0 <= j && j + 3 <= t.len() {
                assert(j < i - from);
            }
        }
        lemma_find_sep_absent(t);
    }
    n
}

/// What one line of the registry file yields: `None` for a line that does
/// not start with a quote or has no separated second field, else the
/// identifier (up to the first separator) and the description (up to the
/// next separator, or the end).
pub open spec fn parse_line_spec(line: Seq<char>) -> Option<ImModuleView> {
    if line.len() == 0 || line[0] != '"' {
        None
    } else {
        let rest = line.drop_first();
        let i = find_sep_idx(rest);
        if i == rest.len() {
            None
        } else {
            let id = rest.take(i);
            let tail = rest.skip(i + 3);
            let j = find_sep_idx(tail);
            let description = if j == tail.len() {
                tail
            } else {
                tail.take(j)
            };
            Some(ImModuleView { id: id, description: description })
        }
    }
}

/// Parse one line, as [`parse_line_spec`] says.
pub fn parse_line(line: &str) -> (r: Option<ImModule>)
    ensures
        match r {
            Some(m) => parse_line_spec(line@) == Some(m@),
            None => parse_line_spec(line@) is None,
        },
{
    let n = line.unicode_len();
    if n == 0 {
        return None;
    }
    if line.get_char(0) != '"' {
        return None;
    }
    let ghost rest = line@.drop_first();
    proof {
        assert(rest =~= line@.skip(1));
    }
    let k = find_sep_at(line, n, 1);
    if k == n {
        proof {
            assert(find_sep_idx(rest) == n - 1);
        }
        return None;
    }
    proof {
        assert(sep_at(rest, k - 1));
        assert(find_sep_idx(rest) == k - 1);
        assert(k - 1 < rest.len());
        assert(rest.take(k - 1) =~= line@.subrange(1, k as int));
    }
    let id = line.substring_char(1, k).to_owned();
    let tail_start = k + 3;
    let ghost tail = rest.skip(k - 1 + 3);
    proof {
        assert(tail =~= line@.skip(tail_start as int));
    }
    let k2 = find_sep_at(line, n, tail_start);
    let description = if k2 == n {
        proof {
            assert(find_sep_idx(tail) == tail.len());
            assert(line@.subrange(tail_start as int, n as int) =~= tail);
        }
        line.substring_char(tail_start, n).to_owned()
    } else {
        proof {
            assert(find_sep_idx(tail) == k2 - tail_start);
            assert(k2 - tail_start < tail.len());
            assert(line@.subrange(tail_start as int, k2 as int) =~= tail.take(
                k2 - tail_start as int,
            ));
        }
        line.substring_char(tail_start, k2).to_owned()
    };
    Some(ImModule { id: id, description: description })
}

/// A line with its trailing carriage return removed, as `str::lines` strips
/// it from a line ended by `"\r\n"`.
pub open spec fn strip_cr(l: Seq<char>) -> Seq<char> {
    if l.len() > 0 && l[l.len() - 1] == '\r' {
        l.drop_last()
    } else {
        l
    }
}

/// The lines of `s`, split at `'\n'` with a trailing `'\r'` stripped from
/// each ended line, the final line ending optional: what `str::lines`
/// yields.
pub open spec fn lines_spec(s: Seq<char>) -> Seq<Seq<char>>
    decreases s.len() via lines_spec_dec
{
    if s.len() == 0 {
        Seq::empty()
    } else {
        let i = find_char_idx(s, '\n');
        if i == s.len() {
            seq![s]
        } else {
            seq![strip_cr(s.take(i))] + lines_spec(s.skip(i + 1))
        }
    }
}

#[via_fn]
proof fn lines_spec_dec(s: Seq<char>) {
    lemma_find_char_bounds(s, '\n');
}

/// The entries of the given lines, in file order: each line's parse where
/// there is one.
pub open spec fn parse_all_spec(lines: Seq<Seq<char>>) -> Seq<ImModuleView>
    decreases lines.len(),
{
    if lines.len() == 0 {
        Seq::empty()
    } else {
        match parse_line_spec(lines[0]) {
            Some(m) => seq![m] + parse_all_spec(lines.drop_first()),
            None => parse_all_spec(lines.drop_first()),
        }
    }
}

/// How many of the given lines are well formed: those a parse yields an
/// entry for.
pub open spec fn well_formed_count(lines: Seq<Seq<char>>) -> int
    decreases lines.len(),
{
    if lines.len() == 0 {
        0
    } else {
        (if parse_line_spec(lines[0]) is Some {
            1int
        } else {
            0int
        }) + well_formed_count(lines.drop_first())
    }
}

/// Parsing yields exactly one entry per well-formed line: with the sorted
/// result's length pinned to `modules_of_text`, a file of `n` well-formed
/// lines yields `n` entries.
pub proof fn lemma_entry_count(lines: Seq<Seq<char>>)
    ensures
        parse_all_spec(lines).len() == well_formed_count(lines),
    decreases lines.len(),
{
    if lines.len() > 0 {
        lemma_entry_count(lines.drop_first());
    }
}

/// The entries of a whole registry file, in file order.
pub open spec fn modules_of_text(s: Seq<char>) -> Seq<ImModuleView> {
    parse_all_spec(lines_spec(s))
}

/// Parse the text from `from` on: the entries of `lines_spec` of the
/// remaining suffix, in file order.
fn parse_from(text: &str, n: usize, from: usize) -> (r: Vec<ImModule>)
    requires
        n == text@.len(),
        from <= n,
    ensures
        views_of(r@) == parse_all_spec(lines_spec(text@.skip(from as int))),
    decreases n - from,
{
    let ghost suffix = text@.skip(from as int);
    if from == n {
        let r: Vec<ImModule> = Vec::new();
        proof {
            assert(suffix =~= Seq::<char>::empty());
            assert(views_of(r@) =~= parse_all_spec(lines_spec(suffix)));
        }
        return r;
    }
    let nl = find_char_at(text, n, from, '\n');
    proof {
        lemma_find_char_bounds(suffix, '\n');
    }
    if nl == n {
        // the final line, with no line ending after it
        let line = text.substring_char(from, n);
        proof {
            assert(line@ =~= suffix);
            assert(lines_spec(suffix) =~= seq![suffix]);
        }
        let mut r: Vec<ImModule> = Vec::new();
        let parsed = parse_line(line);
        proof {
            assert(lines_spec(suffix)[0] == suffix);
            assert(lines_spec(suffix).drop_first() =~= Seq::<Seq<char>>::empty());
            assert(parse_all_spec(Seq::<Seq<char>>::empty()) =~= Seq::<ImModuleView>::empty());
        }
        match parsed {
            Some(m) => {
                r.push(m);
                proof {
                    assert(views_of(r@) =~= parse_all_spec(lines_spec(suffix)));
                }
            },
            None => {
                proof {
                    assert(views_of(r@) =~= parse_all_spec(lines_spec(suffix)));
                }
            },
        }
        return r;
    }
    // a line ended by '\n' at nl, its '\r' stripped if it has one
    let line_end = if nl > from && text.get_char(nl - 1) == '\r' {
        nl - 1
    } else {
        nl
    };
    let line = text.substring_char(from, line_end);
    let ghost i = nl - from;
    proof {
        assert(suffix.take(i) =~= text@.subrange(from as int, nl as int));
        if nl > from && text@[nl - 1] == '\r' {
            assert(suffix.take(i).len() > 0);
            assert(suffix.take(i)[i - 1] == text@[nl - 1]);
            assert(strip_cr(suffix.take(i)) =~= text@.subrange(
                from as int,
                nl - 1,
            ));
        } else {
            if suffix.take(i).len() > 0 {
                assert(suffix.take(i)[i - 1] == text@[nl - 1]);
            }
            assert(strip_cr(suffix.take(i)) =~= text@.subrange(from as int, nl as int));
        }
        assert(line@ == strip_cr(suffix.take(i)));
    }
    let mut r = parse_from(text, n, nl + 1);
    proof {
        assert(suffix.skip(i + 1) =~= text@.skip(nl + 1 as int));
        assert(lines_spec(suffix) =~= seq![strip_cr(suffix.take(i))] + lines_spec(
            suffix.skip(i + 1),
        ));
        assert(lines_spec(suffix)[0] == line@);
        assert(lines_spec(suffix).drop_first() =~= lines_spec(suffix.skip(i + 1)));
    }
    let parsed = parse_line(line);
    match parsed {
        Some(m) => {
            r.insert(0, m);
            proof {
                assert(views_of(r@) =~= parse_all_spec(lines_spec(suffix)));
            }
        },
        None => {
            proof {
                assert(views_of(r@) =~= parse_all_spec(lines_spec(suffix)));
            }
        },
    }
    r
}

/// The order of the registry list: by identifier, ties by description; the
/// order in which `(String, String)` pairs sort.
pub open spec fn module_le(a: ImModuleView, b: ImModuleView) -> bool {
    lex_lt(a.id, b.id) || (a.id == b.id && lex_le(a.description, b.description))
}

/// The registry order as a relation value, for `sorted_by`.
pub open spec fn module_order() -> spec_fn(ImModuleView, ImModuleView) -> bool {
    |x: ImModuleView, y: ImModuleView| module_le(x, y)
}

/// Any two entries are ordered one way or the other.
pub proof fn lemma_module_le_total(a: ImModuleView, b: ImModuleView)
    ensures
        module_le(a, b) || module_le(b, a),
{
    lemma_lex_trichotomy(a.id, b.id);
    lemma_lex_trichotomy(a.description, b.description);
}

/// The entry order is transitive.
pub proof fn lemma_module_le_trans(a: ImModuleView, b: ImModuleView, c: ImModuleView)
    requires
        module_le(a, b),
        module_le(b, c),
    ensures
        module_le(a, c),
{
    if lex_lt(a.id, b.id) && lex_lt(b.id, c.id) {
        lemma_lex_trans(a.id, b.id, c.id);
    } else if a.id == b.id && b.id == c.id {
        if lex_lt(a.description, b.description) && lex_lt(b.description, c.description) {
            lemma_lex_trans(a.description, b.description, c.description);
        }
    }
}

/// Whether `a` comes no later than `b` in the registry order.
pub fn module_le_exec(a: &ImModule, b: &ImModule) -> (r: bool)
    ensures
        r == module_le(a@, b@),
{
    let c = lex_cmp(a.id.as_str(), b.id.as_str());
    if c < 0 {
        true
    } else if c > 0 {
        false
    } else {
        lex_cmp(a.description.as_str(), b.description.as_str()) <= 0
    }
}

/// The registry order is a total ordering: with
/// [`vstd::seq_lib::lemma_sorted_unique`], a sorted sequence of entries is
/// determined by what it holds, so the contract of [`parse_im_modules`]
/// pins its result.
pub proof fn lemma_module_order_total()
    ensures
        vstd::relations::total_ordering(module_order()),
{
    assert forall|a: ImModuleView| #[trigger] module_order()(a, a) by {
        assert(module_le(a, a));
    }
    assert forall|a: ImModuleView, b: ImModuleView|
        #[trigger] module_order()(a, b) && #[trigger] module_order()(b, a) implies a == b by {
        lemma_lex_trichotomy(a.id, b.id);
        lemma_lex_trichotomy(a.description, b.description);
        assert(a =~= b);
    }
    assert forall|a: ImModuleView, b: ImModuleView, c: ImModuleView|
        #[trigger] module_order()(a, b) && #[trigger] module_order()(b, c) implies module_order()(
        a,
        c,
    ) by {
        lemma_module_le_trans(a, b, c);
    }
    assert forall|a: ImModuleView, b: ImModuleView| #[trigger] module_order()(a, b)
        || #[trigger] module_order()(b, a) by {
        lemma_module_le_total(a, b);
    }
}

/// Two sorted sequences holding the same entries are the same sequence.
pub proof fn lemma_sorted_entries_unique(x: Seq<ImModuleView>, y: Seq<ImModuleView>)
    requires
        sorted_by(x, module_order()),
        sorted_by(y, module_order()),
        x.to_multiset() == y.to_multiset(),
    ensures
        x == y,
{
    lemma_module_order_total();
    vstd::seq_lib::lemma_sorted_unique(x, y, module_order());
}

/// Inserting an element between its lower and upper neighbours keeps a
/// sequence sorted.
proof fn lemma_sorted_insert(s: Seq<ImModuleView>, m: ImModuleView, i: int)
    requires
        sorted_by(s, module_order()),
        0 <= i <= s.len(),
        forall|k: int| 0 <= k < i ==> module_le(#[trigger] s[k], m),
        i < s.len() ==> module_le(m, s[i]),
    ensures
        sorted_by(s.insert(i, m), module_order()),
{
    let t = s.insert(i, m);
    assert forall|p: int, q: int| 0 <= p < q < t.len() implies #[trigger] module_order()(
        t[p],
        t[q],
    ) by {
        if p < i && q < i {
            assert(module_order()(s[p], s[q]));
        } else if p < i && q == i {
            assert(module_le(s[p], m));
        } else if p < i && q > i {
            assert(module_order()(s[p], s[q - 1]));
        } else if p == i && q > i {
            assert(module_le(m, s[i]));
            if q - 1 > i {
                assert(module_order()(s[i], s[q - 1]));
                lemma_module_le_trans(m, s[i], s[q - 1]);
            }
        } else {
            assert(p > i);
            assert(module_order()(s[p - 1], s[q - 1]));
        }
    }
}

/// The multiset of a sequence with one element inserted.
proof fn lemma_insert_multiset(s: Seq<ImModuleView>, i: int, m: ImModuleView)
    requires
        0 <= i <= s.len(),
    ensures
        s.insert(i, m).to_multiset() == s.to_multiset().insert(m),
{
    broadcast use vstd::seq_lib::group_to_multiset_ensures;
    broadcast use vstd::multiset::group_multiset_axioms;

    assert(s.insert(i, m) =~= s.take(i).push(m) + s.skip(i));
    lemma_multiset_commutative(s.take(i).push(m), s.skip(i));
    assert(s.take(i).push(m).to_multiset() =~= s.take(i).to_multiset().insert(m));
    assert(s =~= s.take(i) + s.skip(i));
    lemma_multiset_commutative(s.take(i), s.skip(i));
    assert(s.insert(i, m).to_multiset() =~= s.to_multiset().insert(m));
}

/// Sort the entries in the registry order: the result holds the same
/// entries, in order.
pub fn sort_modules(v: Vec<ImModule>) -> (r: Vec<ImModule>)
    ensures
        views_of(r@).to_multiset() == views_of(v@).to_multiset(),
        sorted_by(views_of(r@), module_order()),
{
    broadcast use vstd::seq_lib::group_to_multiset_ensures;
    broadcast use vstd::multiset::group_multiset_axioms;

    let mut src = v;
    let mut out: Vec<ImModule> = Vec::new();
    proof {
        assert(views_of(out@) =~= Seq::<ImModuleView>::empty());
        assert(views_of(out@).to_multiset().add(views_of(src@).to_multiset()) =~= views_of(
            src@,
        ).to_multiset());
    }
    while src.len() > 0
        invariant
            views_of(out@).to_multiset().add(views_of(src@).to_multiset()) == views_of(
                v@,
            ).to_multiset(),
            sorted_by(views_of(out@), module_order()),
        decreases src.len(),
    {
        let ghost src0 = src@;
        let m = src.pop().unwrap();
        proof {
            assert(m@ == src0[src0.len() - 1]@);
            assert(src@ =~= src0.drop_last());
            assert(views_of(src0).len() == views_of(src@).push(m@).len());
            assert forall|k: int| 0 <= k < src0.len() implies views_of(src0)[k] == views_of(
                src@,
            ).push(m@)[k] by {
                assert(views_of(src0)[k] == src0[k]@);
                if k < src0.len() - 1 {
                    assert(views_of(src@)[k] == src@[k]@);
                    assert(src@[k] == src0[k]);
                }
            }
            assert(views_of(src0) =~= views_of(src@).push(m@));
            vstd::seq_lib::to_multiset_build(views_of(src@), m@);
            assert(views_of(src@).push(m@).to_multiset() =~= views_of(src@).to_multiset().insert(
                m@,
            ));
            assert(views_of(src0).to_multiset() =~= views_of(src@).to_multiset().insert(m@));
        }
        let mut idx: usize = 0;
        while idx < out.len() && !module_le_exec(&m, &out[idx])
            invariant
                0 <= idx <= out.len(),
                forall|k: int| 0 <= k < idx ==> !module_le(m@, #[trigger] views_of(out@)[k]),
            decreases out.len() - idx,
        {
            idx = idx + 1;
        }
        proof {
            assert forall|k: int| 0 <= k < idx implies module_le(
                #[trigger] views_of(out@)[k],
                m@,
            ) by {
                lemma_module_le_total(m@, views_of(out@)[k]);
            }
            lemma_sorted_insert(views_of(out@), m@, idx as int);
            lemma_insert_multiset(views_of(out@), idx as int, m@);
        }
        let ghost out0 = out@;
        out.insert(idx, m);
        proof {
            assert(views_of(out@) =~= views_of(out0).insert(idx as int, m@));
        }
    }
    proof {
        assert(views_of(src@) =~= Seq::<ImModuleView>::empty());
        assert(views_of(src@).to_multiset() =~= Multiset::<ImModuleView>::empty());
        assert(views_of(out@).to_multiset() =~= views_of(v@).to_multiset());
    }
    out
}

/// Read the registry entries out of the file's text: every well-formed
/// line's identifier and description, sorted by identifier, then by
/// description.
pub fn parse_im_modules(text: &str) -> (r: Vec<ImModule>)
    ensures
        views_of(r@).to_multiset() == modules_of_text(text@).to_multiset(),
        sorted_by(views_of(r@), module_order()),
        r@.len() == modules_of_text(text@).len(),
{
    broadcast use vstd::seq_lib::group_to_multiset_ensures;

    let n = text.unicode_len();
    let unsorted = parse_from(text, n, 0);
    proof {
        assert(text@.skip(0) =~= text@);
    }
    let r = sort_modules(unsorted);
    proof {
        assert(views_of(r@).len() == r@.len());
        assert(views_of(r@).to_multiset().len() == views_of(r@).len());
        assert(modules_of_text(text@).to_multiset().len() == modules_of_text(text@).len());
    }
    r
}

} // verus!
