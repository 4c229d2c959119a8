//! The registry store: the on-disk line-oriented `name=id` text and its
//! in-memory mapping.
//!
//! A registry file is a sequence of lines. Each line of the shape
//! `name=value`, with `value` a decimal `u64`, contributes one record;
//! every other line is silently skipped. When two lines carry the same
//! name, the later line wins.

use crate::numerals::{dec_of, is_dec_digit, lemma_dec_of_value, lemma_parse_dec_of, parse_u64,
    parse_u64_str, push_decimal};
use crate::split::{lemma_split_on_first_sep, lemma_split_on_no_sep, lemma_split_on_nonempty,
    split_on};
use vstd::prelude::*;

verus! {

/// A line break, as the store splits lines: `\n` or `\r`.
pub open spec fn is_line_break(c: char) -> bool {
    c == '\n' || c == '\r'
}

/// The line separator predicate, named so that every use is the same term.
pub open spec fn line_break_fn() -> spec_fn(char) -> bool {
    |c: char| is_line_break(c)
}

/// The `=` separator predicate.
pub open spec fn field_sep_fn() -> spec_fn(char) -> bool {
    |c: char| c == '='
}

/// The lines of a registry text.
pub open spec fn lines_of(s: Seq<char>) -> Seq<Seq<char>> {
    split_on(s, line_break_fn())
}

/// The `=`-separated fields of one line.
pub open spec fn fields_of(s: Seq<char>) -> Seq<Seq<char>> {
    split_on(s, field_sep_fn())
}

/// The record of one line, if it has one: the text before the first `=` is
/// the name, and the text between the first and the second `=` (or the end
/// of the line) must parse as a decimal `u64`. A line with no `=`, or whose
/// value text does not parse, has no record.
pub open spec fn pair_of_line(line: Seq<char>) -> Option<(Seq<char>, u64)> {
    let fields = fields_of(line);
    if fields.len() < 2 {
        None
    } else {
        match parse_u64(fields[1]) {
            Some(v) => Some((fields[0], v)),
            None => None,
        }
    }
}

/// One line folded into the mapping: its record inserted, or nothing.
pub open spec fn line_step(m: Map<Seq<char>, u64>, line: Seq<char>) -> Map<Seq<char>, u64> {
    match pair_of_line(line) {
        Some(p) => m.insert(p.0, p.1),
        None => m,
    }
}

/// The lines folded into a mapping, in order, so a later duplicate name
/// overwrites an earlier one.
pub open spec fn map_of_lines(lines: Seq<Seq<char>>) -> Map<Seq<char>, u64>
    decreases lines.len(),
{
    if lines.len() == 0 {
        Map::empty()
    } else {
        line_step(map_of_lines(lines.drop_last()), lines.last())
    }
}

/// The mapping a registry text denotes.
pub open spec fn tree_of(s: Seq<char>) -> Map<Seq<char>, u64> {
    map_of_lines(lines_of(s))
}

/// Some name is mapped to `id`.
pub open spec fn id_in_use(m: Map<Seq<char>, u64>, id: u64) -> bool {
    exists|k: Seq<char>| #[trigger] m.contains_key(k) && m[k] == id
}

/// A sequence of records folded into a mapping, later records winning.
spec fn map_of_entries(s: Seq<(Seq<char>, u64)>) -> Map<Seq<char>, u64>
    decreases s.len(),
{
    if s.len() == 0 {
        Map::empty()
    } else {
        map_of_entries(s.drop_last()).insert(s.last().0, s.last().1)
    }
}

/// No two records share a name.
spec fn entry_keys_distinct(s: Seq<(Seq<char>, u64)>) -> bool {
    forall|i: int, j: int| 0 <= i < j < s.len() ==> (#[trigger] s[i]).0 != (#[trigger] s[j]).0
}

/// The domain of a folded mapping is finite, and holds exactly the names of
/// the records.
proof fn lemma_map_of_entries_dom(s: Seq<(Seq<char>, u64)>)
    ensures
        map_of_entries(s).dom().finite(),
        forall|k: Seq<char>|
            #[trigger] map_of_entries(s).contains_key(k) <==> exists|i: int|
                0 <= i < s.len() && (#[trigger] s[i]).0 == k,
    decreases s.len(),
{
    if s.len() > 0 {
        lemma_map_of_entries_dom(s.drop_last());
        assert(forall|i: int| 0 <= i < s.len() - 1 ==> s.drop_last()[i] == s[i]);
        assert forall|k: Seq<char>| #[trigger]
            map_of_entries(s).contains_key(k) implies exists|i: int|
            0 <= i < s.len() && (#[trigger] s[i]).0 == k by {
            if k == s.last().0 {
                assert((s[s.len() - 1]).0 == k);
            } else {
                assert(map_of_entries(s.drop_last()).contains_key(k));
            }
        }
        assert forall|k: Seq<char>|
            (exists|i: int|
                0 <= i < s.len() && (#[trigger] s[i]).0 == k) implies #[trigger] map_of_entries(
            s,
        ).contains_key(k) by {
            let i = choose|i: int| 0 <= i < s.len() && (#[trigger] s[i]).0 == k;
            if i < s.len() - 1 {
                assert((s.drop_last()[i]).0 == k);
            }
        }
    }
}

/// A record that no later record shadows gives the mapping's value at its
/// name.
proof fn lemma_map_of_entries_at(s: Seq<(Seq<char>, u64)>, i: int)
    requires
        0 <= i < s.len(),
        forall|j: int| i < j < s.len() ==> (#[trigger] s[j]).0 != s[i].0,
    ensures
        map_of_entries(s).contains_key(s[i].0),
        map_of_entries(s)[s[i].0] == s[i].1,
    decreases s.len(),
{
    if i == s.len() - 1 {
    } else {
        assert(forall|j: int| 0 <= j < s.len() - 1 ==> s.drop_last()[j] == s[j]);
        lemma_map_of_entries_at(s.drop_last(), i);
        assert(s.last().0 != s[i].0);
    }
}

/// With distinct names, the mapping has exactly one entry per record.
proof fn lemma_map_of_entries_len(s: Seq<(Seq<char>, u64)>)
    requires
        entry_keys_distinct(s),
    ensures
        map_of_entries(s).dom().len() == s.len(),
    decreases s.len(),
{
    if s.len() > 0 {
        let t = s.drop_last();
        assert(forall|i: int| 0 <= i < t.len() ==> t[i] == s[i]);
        assert(entry_keys_distinct(t));
        lemma_map_of_entries_len(t);
        lemma_map_of_entries_dom(t);
        assert(!map_of_entries(t).contains_key(s.last().0)) by {
            if map_of_entries(t).contains_key(s.last().0) {
                let i = choose|i: int| 0 <= i < t.len() && (#[trigger] t[i]).0 == s.last().0;
                assert((s[i]).0 == (s[s.len() - 1]).0);
            }
        }
        assert(map_of_entries(s).dom() =~= map_of_entries(t).dom().insert(s.last().0));
        vstd::set::axiom_set_insert_len(map_of_entries(t).dom(), s.last().0);
    }
}

/// Compares two string slices character by character.
fn str_eq(a: &str, b: &str) -> (r: bool)
    ensures
        r == (a@ == b@),
{
    let n = a.unicode_len();
    let m = b.unicode_len();
    if n != m {
        return false;
    }
    let mut i: usize = 0;
    while i < n
        invariant
            0 <= i <= n,
            n == a@.len(),
            n == b@.len(),
            forall|j: int| 0 <= j < i ==> a@[j] == b@[j],
        decreases n - i,
    {
        if a.get_char(i) != b.get_char(i) {
            return false;
        }
        i = i + 1;
    }
    proof {
        assert(a@ =~= b@);
    }
    true
}

/// An in-memory registry mapping: the records read from a registry file,
/// at most one id per name.
pub struct Registry {
    entries: Vec<(String, u64)>,
}

impl View for Registry {
    type V = Map<Seq<char>, u64>;

    closed spec fn view(&self) -> Map<Seq<char>, u64> {
        map_of_entries(self.records())
    }
}

/// The stored records of an entry vector, as mathematical values.
spec fn records_of(entries: Seq<(String, u64)>) -> Seq<(Seq<char>, u64)> {
    entries.map_values(|e: (String, u64)| (e.0@, e.1))
}

impl Registry {
    /// The stored records, as mathematical values.
    spec fn records(self) -> Seq<(Seq<char>, u64)> {
        records_of(self.entries@)
    }

    #[verifier::type_invariant]
    spec fn wf(self) -> bool {
        entry_keys_distinct(self.records())
    }

    /// An empty mapping, as an absent registry file denotes.
    pub fn new() -> (r: Registry)
        ensures
            r@ == Map::<Seq<char>, u64>::empty(),
    {
        let r = Registry { entries: Vec::new() };
        proof {
            assert(r.records() =~= Seq::<(Seq<char>, u64)>::empty());
        }
        r
    }

    /// How many names hold ids.
    pub fn len(&self) -> (n: usize)
        ensures
            n == self@.dom().len(),
            self@.dom().finite(),
    {
        proof {
            use_type_invariant(&*self);
            lemma_map_of_entries_len(self.records());
            lemma_map_of_entries_dom(self.records());
        }
        self.entries.len()
    }

    /// The index of the record for `name`, if one is stored.
    fn find_index(&self, name: &str) -> (r: Option<usize>)
        ensures
            r matches Some(i) ==> i < self.records().len() && self.records()[i as int].0 == name@,
            r is None ==> forall|i: int|
                0 <= i < self.records().len() ==> (#[trigger] self.records()[i]).0 != name@,
    {
        let n = self.entries.len();
        let mut i: usize = 0;
        while i < n
            invariant
                0 <= i <= n,
                n == self.records().len(),
                self.records() == self.entries@.map_values(|e: (String, u64)| (e.0@, e.1)),
                forall|j: int| 0 <= j < i ==> (#[trigger] self.records()[j]).0 != name@,
            decreases n - i,
        {
            if str_eq(self.entries[i].0.as_str(), name) {
                return Some(i);
            }
            i = i + 1;
        }
        None
    }

    /// The id stored for `name`, if any.
    pub fn get(&self, name: &str) -> (r: Option<u64>)
        ensures
            self@.contains_key(name@) ==> r == Some(self@[name@]),
            !self@.contains_key(name@) ==> r is None,
    {
        proof {
            use_type_invariant(&*self);
            lemma_map_of_entries_dom(self.records());
        }
        match self.find_index(name) {
            Some(i) => {
                proof {
                    lemma_map_of_entries_at(self.records(), i as int);
                }
                Some(self.entries[i].1)
            },
            None => None,
        }
    }

    /// Inserts or overwrites the record for `name`.
    pub fn insert(&mut self, name: String, id: u64)
        ensures
            final(self)@ == old(self)@.insert(name@, id),
    {
        proof {
            use_type_invariant(&*self);
        }
        let ghost s0 = self.records();
        let idx = self.find_index(name.as_str());
        let mut entries: Vec<(String, u64)> = Vec::new();
        proof {
            assert(records_of(entries@) =~= Seq::<(Seq<char>, u64)>::empty());
        }
        core::mem::swap(&mut entries, &mut self.entries);
        match idx {
            Some(i) => {
                proof {
                    lemma_remove_push_entry(s0, i as int, (name@, id));
                }
                let _ = entries.remove(i);
                entries.push((name, id));
                proof {
                    assert(records_of(entries@) =~= s0.remove(i as int).push((name@, id)));
                }
            },
            None => {
                proof {
                    lemma_push_entry(s0, (name@, id));
                }
                entries.push((name, id));
                proof {
                    assert(records_of(entries@) =~= s0.push((name@, id)));
                }
            },
        }
        core::mem::swap(&mut entries, &mut self.entries);
    }

    /// Whether some name holds `id`.
    pub fn contains_id(&self, id: u64) -> (r: bool)
        ensures
            r == id_in_use(self@, id),
    {
        proof {
            use_type_invariant(&*self);
        }
        let n = self.entries.len();
        let mut i: usize = 0;
        while i < n
            invariant
                0 <= i <= n,
                n == self.records().len(),
                self.records() == self.entries@.map_values(|e: (String, u64)| (e.0@, e.1)),
                entry_keys_distinct(self.records()),
                self@ == map_of_entries(self.records()),
                forall|j: int| 0 <= j < i ==> (#[trigger] self.records()[j]).1 != id,
            decreases n - i,
        {
            if self.entries[i].1 == id {
                proof {
                    lemma_map_of_entries_at(self.records(), i as int);
                }
                return true;
            }
            i = i + 1;
        }
        proof {
            if id_in_use(self@, id) {
                let k = choose|k: Seq<char>| #[trigger] self@.contains_key(k) && self@[k] == id;
                lemma_map_of_entries_dom(self.records());
                let j = choose|j: int|
                    0 <= j < self.records().len() && (#[trigger] self.records()[j]).0 == k;
                lemma_map_of_entries_at(self.records(), j);
            }
        }
        false
    }
}

/// Replacing the one record of a name, wherever it stands, is insertion
/// into the mapping.
proof fn lemma_remove_push_entry(s: Seq<(Seq<char>, u64)>, i: int, p: (Seq<char>, u64))
    requires
        entry_keys_distinct(s),
        0 <= i < s.len(),
        s[i].0 == p.0,
    ensures
        entry_keys_distinct(s.remove(i).push(p)),
        map_of_entries(s.remove(i).push(p)) == map_of_entries(s).insert(p.0, p.1),
{
    let t = s.remove(i).push(p);
    assert(forall|j: int| 0 <= j < i ==> s.remove(i)[j] == s[j]);
    assert(forall|j: int| i <= j < s.len() - 1 ==> s.remove(i)[j] == s[j + 1]);
    assert(entry_keys_distinct(t));
    lemma_map_of_entries_dom(s);
    lemma_map_of_entries_dom(t);
    assert forall|k: Seq<char>| #[trigger]
        map_of_entries(t).contains_key(k) implies map_of_entries(s).insert(
        p.0,
        p.1,
    ).contains_key(k) by {
        if k != p.0 {
            let j = choose|j: int| 0 <= j < t.len() && (#[trigger] t[j]).0 == k;
            if j < i {
                assert(s[j].0 == k);
            } else {
                assert(s[j + 1].0 == k);
            }
        }
    }
    assert forall|k: Seq<char>| #[trigger]
        map_of_entries(s).insert(p.0, p.1).contains_key(k) implies map_of_entries(
        t,
    ).contains_key(k) by {
        if k != p.0 {
            let j = choose|j: int| 0 <= j < s.len() && (#[trigger] s[j]).0 == k;
            assert(j != i);
            if j < i {
                assert(t[j].0 == k);
            } else {
                assert(t[j - 1].0 == k);
            }
        } else {
            assert(t[t.len() - 1].0 == k);
        }
    }
    assert forall|k: Seq<char>| #[trigger]
        map_of_entries(t).contains_key(k) implies map_of_entries(t)[k] == map_of_entries(s).insert(
        p.0,
        p.1,
    )[k] by {
        if k == p.0 {
            lemma_map_of_entries_at(t, t.len() - 1);
        } else {
            let j = choose|j: int| 0 <= j < t.len() && (#[trigger] t[j]).0 == k;
            assert(j < t.len() - 1);
            lemma_map_of_entries_at(t, j);
            if j < i {
                lemma_map_of_entries_at(s, j);
            } else {
                lemma_map_of_entries_at(s, j + 1);
            }
        }
    }
    assert(map_of_entries(t) =~= map_of_entries(s).insert(p.0, p.1));
}

/// The position of the first `=` at or after `from`, if any.
fn find_eq(line: &str, from: usize) -> (r: Option<usize>)
    requires
        from <= line@.len(),
    ensures
        r matches Some(i) ==> from <= i < line@.len() && line@[i as int] == '=' && (forall|j: int|
            from <= j < i ==> line@[j] != '='),
        r is None ==> forall|j: int| from <= j < line@.len() ==> line@[j] != '=',
{
    let n = line.unicode_len();
    let mut i: usize = from;
    while i < n
        invariant
            from <= i <= n,
            n == line@.len(),
            forall|j: int| from <= j < i ==> line@[j] != '=',
        decreases n - i,
    {
        if line.get_char(i) == '=' {
            return Some(i);
        }
        i = i + 1;
    }
    None
}

/// Parses one line into its record, if it has one: the text before the
/// first `=` is the name, and the text between the first and the second
/// `=` (or the end of the line) must be a decimal `u64`.
pub fn pair_from_line(line: &str) -> (r: Option<(String, u64)>)
    ensures
        r is Some <==> pair_of_line(line@) is Some,
        r matches Some(p) ==> pair_of_line(line@) == Some((p.0@, p.1)),
{
    let n = line.unicode_len();
    let e1 = match find_eq(line, 0) {
        Some(i) => i,
        None => {
            proof {
                assert(forall|j: int|
                    0 <= j < line@.len() ==> !field_sep_fn()(#[trigger] line@[j]));
                lemma_split_on_no_sep(line@, field_sep_fn());
            }
            return None;
        },
    };
    proof {
        assert(field_sep_fn()(line@[e1 as int]));
        assert(forall|j: int| 0 <= j < e1 ==> !field_sep_fn()(#[trigger] line@[j]));
        lemma_split_on_first_sep(line@, field_sep_fn(), e1 as int);
        lemma_split_on_nonempty(line@.skip(e1 as int + 1), field_sep_fn());
    }
    let key_slice = line.substring_char(0, e1);
    let rest_start = e1 + 1;
    let e2 = match find_eq(line, rest_start) {
        Some(i) => i,
        None => n,
    };
    let value_slice = line.substring_char(rest_start, e2);
    proof {
        let rest = line@.skip(rest_start as int);
        assert(forall|j: int| 0 <= j < rest.len() ==> rest[j] == line@[j + rest_start]);
        if e2 < n {
            let k = e2 - rest_start;
            assert(field_sep_fn()(rest[k as int]));
            assert(forall|j: int| 0 <= j < k ==> !field_sep_fn()(#[trigger] rest[j]));
            lemma_split_on_first_sep(rest, field_sep_fn(), k as int);
            assert(fields_of(line@)[1] == rest.take(k as int));
        } else {
            assert(forall|j: int| 0 <= j < rest.len() ==> !field_sep_fn()(#[trigger] rest[j]));
            lemma_split_on_no_sep(rest, field_sep_fn());
            assert(fields_of(line@)[1] == rest);
        }
        assert(value_slice@ =~= fields_of(line@)[1]);
        assert(key_slice@ =~= fields_of(line@)[0]);
        assert(fields_of(line@).len() >= 2);
    }
    match parse_u64_str(value_slice) {
        Some(v) => Some((key_slice.to_owned(), v)),
        None => None,
    }
}

/// Folds one line into the mapping, as loading does.
fn insert_line(m: &mut Registry, line: &str)
    ensures
        final(m)@ == line_step(old(m)@, line@),
{
    match pair_from_line(line) {
        Some(p) => {
            let (k, v) = p;
            m.insert(k, v);
        },
        None => {},
    }
}

/// Reads a whole registry text into its mapping. Lines are split at `\n`
/// and `\r`; a line without a readable record is skipped; a later line
/// for the same name overwrites an earlier one.
pub fn file_string_to_tree(file_contents: String) -> (m: Registry)
    ensures
        m@ == tree_of(file_contents@),
{
    let s: &str = file_contents.as_str();
    let n = s.unicode_len();
    let mut m = Registry::new();
    let ghost mut done: Seq<Seq<char>> = Seq::empty();
    let mut line_start: usize = 0;
    let mut i: usize = 0;
    proof {
        assert(s@.skip(0) =~= s@);
        assert(done + lines_of(s@) =~= lines_of(s@));
    }
    while i < n
        invariant
            0 <= line_start <= i <= n,
            n == s@.len(),
            m@ == map_of_lines(done),
            lines_of(s@) == done + lines_of(s@.skip(line_start as int)),
            forall|j: int| line_start <= j < i ==> !is_line_break(#[trigger] s@[j]),
        decreases n - i,
    {
        let c = s.get_char(i);
        if c == '\n' || c == '\r' {
            let line = s.substring_char(line_start, i);
            let ghost done0 = done;
            insert_line(&mut m, line);
            proof {
                let r = s@.skip(line_start as int);
                let k = i - line_start;
                assert(forall|j: int| 0 <= j < r.len() ==> r[j] == s@[j + line_start]);
                assert(line_break_fn()(r[k as int]));
                assert(forall|j: int| 0 <= j < k ==> !line_break_fn()(#[trigger] r[j]));
                lemma_split_on_first_sep(r, line_break_fn(), k as int);
                assert(line@ =~= r.take(k as int));
                assert(r.skip(k as int + 1) =~= s@.skip(i as int + 1));
                done = done0.push(line@);
                assert(done.drop_last() =~= done0);
                assert(m@ == map_of_lines(done));
                assert(lines_of(s@) =~= done + lines_of(s@.skip(i as int + 1)));
            }
            line_start = i + 1;
        }
        i = i + 1;
    }
    let line = s.substring_char(line_start, n);
    let ghost done0 = done;
    insert_line(&mut m, line);
    proof {
        let r = s@.skip(line_start as int);
        assert(forall|j: int| 0 <= j < r.len() ==> r[j] == s@[j + line_start]);
        assert(forall|j: int| 0 <= j < r.len() ==> !line_break_fn()(#[trigger] r[j]));
        lemma_split_on_no_sep(r, line_break_fn());
        assert(line@ =~= r);
        done = done0.push(line@);
        assert(done.drop_last() =~= done0);
        assert(lines_of(s@) =~= done);
        assert(m@ == map_of_lines(done));
    }
    m
}

/// The line that records `name = id` in a registry file: `name`, `=`, the
/// decimal numeral of `id`, and a newline.
pub open spec fn rendered_line(name: Seq<char>, id: u64) -> Seq<char> {
    name + seq!['='] + dec_of(id as nat) + seq!['\n']
}

/// Renders the line that `append` writes for a new record.
pub fn render_pair_line(name: &str, id: u64) -> (r: String)
    ensures
        r@ == rendered_line(name@, id),
{
    let mut out = name.to_owned();
    out.append("=");
    push_decimal(&mut out, id);
    out.append("\n");
    proof {
        reveal_strlit("=");
        reveal_strlit("\n");
        assert("="@ =~= seq!['=']);
        assert("\n"@ =~= seq!['\n']);
        assert(out@ =~= rendered_line(name@, id));
    }
    out
}

/// A text that ends with a line break has at least two lines, the last of
/// them empty.
proof fn lemma_lines_of_break_terminated(s: Seq<char>)
    requires
        s.len() > 0,
        is_line_break(s.last()),
    ensures
        lines_of(s).len() >= 2,
        lines_of(s).last() == Seq::<char>::empty(),
    decreases s.len(),
{
    let t = s.skip(1);
    if s.len() == 1 {
        assert(line_break_fn()(s[0]));
        assert(lines_of(s) == seq![Seq::<char>::empty()] + lines_of(t));
        assert(t =~= Seq::<char>::empty());
        assert(lines_of(t).len() == 1);
        assert(lines_of(s).last() == lines_of(t)[0]);
    } else {
        assert(t.last() == s.last());
        lemma_lines_of_break_terminated(t);
        let lt = lines_of(t);
        if line_break_fn()(s[0]) {
            assert(lines_of(s) == seq![Seq::<char>::empty()] + lt);
            assert(lines_of(s).last() == lt.last());
        } else {
            assert(lines_of(s) == seq![seq![s[0]] + lt[0]] + lt.skip(1));
            assert(lt.skip(1).len() >= 1);
            assert(lines_of(s).last() == lt.skip(1).last());
            assert(lt.skip(1).last() == lt.last());
        }
    }
}

/// Line splitting distributes over concatenation at a break-terminated
/// (or empty) prefix: the prefix's lines except its trailing empty one,
/// then the suffix's lines.
proof fn lemma_lines_of_concat(a: Seq<char>, t: Seq<char>)
    requires
        a.len() == 0 || is_line_break(a.last()),
    ensures
        lines_of(a + t) == lines_of(a).drop_last() + lines_of(t),
    decreases a.len(),
{
    if a.len() == 0 {
        assert(a + t =~= t);
        assert(lines_of(a).len() == 1);
        assert(lines_of(a).drop_last() + lines_of(t) =~= lines_of(t));
    } else if a.len() == 1 {
        assert(line_break_fn()((a + t)[0]));
        assert((a + t).skip(1) =~= t);
        assert(lines_of(a + t) == seq![Seq::<char>::empty()] + lines_of((a + t).skip(1)));
        assert(lines_of(a) == seq![Seq::<char>::empty()] + lines_of(a.skip(1)));
        assert(a.skip(1) =~= Seq::<char>::empty());
        assert(lines_of(a.skip(1)).len() == 1);
        assert(lines_of(a).drop_last() =~= seq![Seq::<char>::empty()]);
        assert(lines_of(a + t) =~= lines_of(a).drop_last() + lines_of(t));
    } else {
        let a1 = a.skip(1);
        assert(a1.last() == a.last());
        lemma_lines_of_concat(a1, t);
        assert((a + t).skip(1) =~= a1 + t);
        lemma_lines_of_break_terminated(a1);
        let l1 = lines_of(a1);
        if line_break_fn()(a[0]) {
            assert(lines_of(a + t) == seq![Seq::<char>::empty()] + lines_of((a + t).skip(1)));
            assert(lines_of((a + t).skip(1)) == l1.drop_last() + lines_of(t));
            assert(lines_of(a) == seq![Seq::<char>::empty()] + l1);
            assert(lines_of(a).drop_last() =~= seq![Seq::<char>::empty()] + l1.drop_last());
            assert(lines_of(a + t) =~= lines_of(a).drop_last() + lines_of(t));
        } else {
            let rest_at = lines_of((a + t).skip(1));
            assert(rest_at == l1.drop_last() + lines_of(t));
            assert(l1.drop_last().len() >= 1);
            assert(rest_at[0] == l1.drop_last()[0]);
            assert(l1.drop_last()[0] == l1[0]);
            assert((a + t)[0] == a[0]);
            assert(lines_of(a + t) == seq![seq![(a + t)[0]] + rest_at[0]] + rest_at.skip(1));
            assert(lines_of(a) == seq![seq![a[0]] + l1[0]] + l1.skip(1));
            assert(l1.skip(1).len() >= 1);
            assert(lines_of(a).drop_last() =~= seq![seq![a[0]] + l1[0]] + l1.skip(1).drop_last());
            assert(rest_at.skip(1) =~= l1.drop_last().skip(1) + lines_of(t));
            assert(l1.drop_last().skip(1) =~= l1.skip(1).drop_last());
            assert(lines_of(a + t) =~= lines_of(a).drop_last() + lines_of(t));
        }
    }
}

/// The rendered line of a record parses back to exactly that record,
/// provided the name carries no `=` and no line break, which the file
/// format cannot hold.
pub proof fn lemma_rendered_line_parses(name: Seq<char>, id: u64)
    requires
        forall|i: int|
            0 <= i < name.len() ==> name[i] != '=' && !is_line_break(#[trigger] name[i]),
    ensures
        lines_of(rendered_line(name, id)) == seq![
            rendered_line(name, id).drop_last(),
            Seq::<char>::empty(),
        ],
        pair_of_line(rendered_line(name, id).drop_last()) == Some((name, id)),
{
    let digits = dec_of(id as nat);
    let line = rendered_line(name, id);
    lemma_dec_of_value(id as nat);
    let nl = name.len() as int;
    let dl = digits.len() as int;
    assert(line.len() == nl + dl + 2);
    assert(forall|i: int| 0 <= i < nl ==> line[i] == name[i]);
    assert(line[nl] == '=');
    assert(forall|j: int| 0 <= j < dl ==> line[nl + 1 + j] == digits[j]);
    assert(line.last() == '\n');
    assert(forall|j: int| 0 <= j < dl ==> is_dec_digit(#[trigger] digits[j]));
    let k = line.len() - 1;
    assert(forall|i: int| 0 <= i < k ==> !line_break_fn()(#[trigger] line[i])) by {
        assert(forall|j: int| 0 <= j < dl ==> !is_line_break(#[trigger] digits[j]));
    }
    assert(line_break_fn()(line[k]));
    lemma_split_on_first_sep(line, line_break_fn(), k);
    assert(line.skip(k + 1) =~= Seq::<char>::empty());
    assert(lines_of(Seq::<char>::empty()).len() == 1);
    let record = line.take(k);
    assert(record =~= line.drop_last());
    assert(lines_of(line) =~= seq![record, Seq::<char>::empty()]);

    assert(record.len() == nl + dl + 1);
    assert(field_sep_fn()(record[nl]));
    assert(forall|i: int| 0 <= i < nl ==> !field_sep_fn()(#[trigger] record[i]));
    lemma_split_on_first_sep(record, field_sep_fn(), nl);
    assert(record.take(nl) =~= name);
    let vtext = record.skip(nl + 1);
    assert(vtext =~= digits);
    assert(forall|j: int| 0 <= j < dl ==> !field_sep_fn()(#[trigger] digits[j]));
    lemma_split_on_no_sep(digits, field_sep_fn());
    assert(fields_of(record) == seq![record.take(nl)] + fields_of(vtext));
    assert(fields_of(vtext) == seq![digits]);
    assert(fields_of(record).len() == 2);
    assert(fields_of(record)[0] == name);
    assert(fields_of(record)[1] == digits);
    lemma_parse_dec_of(id);
    assert(pair_of_line(record) == Some((name, id)));
}

/// Round trip: appending a rendered record to an empty or break-terminated
/// registry text and loading the result gives exactly the old mapping with
/// that record inserted.
pub proof fn lemma_append_round_trip(contents: Seq<char>, name: Seq<char>, id: u64)
    requires
        contents.len() == 0 || is_line_break(contents.last()),
        forall|i: int|
            0 <= i < name.len() ==> name[i] != '=' && !is_line_break(#[trigger] name[i]),
    ensures
        tree_of(contents + rendered_line(name, id)) == tree_of(contents).insert(name, id),
{
    let line = rendered_line(name, id);
    let record = line.drop_last();
    lemma_rendered_line_parses(name, id);

    // the empty line contributes nothing
    assert(fields_of(Seq::<char>::empty()).len() == 1);
    assert(pair_of_line(Seq::<char>::empty()) is None);

    lemma_lines_of_concat(contents, line);
    let d = lines_of(contents).drop_last();
    assert(lines_of(contents + line) == d + lines_of(line));
    let all = d + seq![record, Seq::<char>::empty()];
    assert(lines_of(contents + line) =~= all);
    assert(all.len() > 0);
    assert(all.last() == Seq::<char>::empty());
    assert(all.drop_last() =~= d.push(record));
    assert(map_of_lines(all) == map_of_lines(d.push(record)));
    assert(d.push(record).drop_last() =~= d);
    assert(d.push(record).last() == record);
    assert(map_of_lines(d.push(record)) == map_of_lines(d).insert(name, id));

    if contents.len() == 0 {
        assert(lines_of(contents).len() == 1);
        assert(lines_of(contents).last() == Seq::<char>::empty());
    } else {
        lemma_lines_of_break_terminated(contents);
    }
    assert(lines_of(contents).len() > 0);
    assert(tree_of(contents) == line_step(map_of_lines(d), lines_of(contents).last()));
    assert(tree_of(contents) == map_of_lines(d));
    assert(tree_of(contents + line) == tree_of(contents).insert(name, id));
}

/// Appending a record for a fresh name is insertion into the mapping.
proof fn lemma_push_entry(s: Seq<(Seq<char>, u64)>, p: (Seq<char>, u64))
    requires
        entry_keys_distinct(s),
        forall|i: int| 0 <= i < s.len() ==> (#[trigger] s[i]).0 != p.0,
    ensures
        entry_keys_distinct(s.push(p)),
        map_of_entries(s.push(p)) == map_of_entries(s).insert(p.0, p.1),
{
    let t = s.push(p);
    assert(forall|j: int| 0 <= j < s.len() ==> t[j] == s[j]);
    assert(entry_keys_distinct(t));
    assert(t.drop_last() =~= s);
    assert(map_of_entries(t) == map_of_entries(s).insert(p.0, p.1));
}

} // verus!
