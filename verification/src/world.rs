//! The world store: the durable ledger recording, for each installed
//! package, the backend that owns it, the version constraint it was
//! installed under, and an optional alias.
//!
//! The store is an in-memory map keyed by package name, kept sorted by name
//! so that serialization is deterministic.  Loading parses the backing
//! file's text line by line; every mutation is followed by re-serializing
//! the whole store, which the caller writes back in one piece.  Opening,
//! reading and writing the backing file happen outside the library: the
//! store works on the file's text.

use vstd::prelude::*;

use crate::backend::{Backend, Package};
use crate::seqs::{
    assoc_map, assoc_map_acc, seq_has_key, lemma_assoc_map_acc_props, lemma_assoc_map_acc_value,
};
use crate::text::{
    is_space_char, lex_lt, lemma_lex_connex, lemma_lex_irreflexive, lemma_lex_transitive,
    lines_of, split_lines, split_ws, str_eq, str_lt, tokens_of, u64_to_string, dec_digits,
    is_space, token_ok, no_space, lemma_tokens_of_token_prefix, lemma_tokens_of_space_prefix,
    lemma_lines_of_concat,
};
use crate::version::{PackageVersion, VersionModel, parse_version, render_version};

verus! {

/// The model of one ledger entry.
pub struct EntryModel {
    pub backend: Seq<char>,
    pub alias: Option<Seq<char>>,
    pub version: VersionModel,
}

/// One ledger entry: the owning backend, an optional alias, and the version
/// constraint.  The package name is the key it is stored under.
#[derive(Debug)]
pub struct PackageEntry {
    pub backend: String,
    pub alias: Option<String>,
    pub version: PackageVersion,
}

impl View for PackageEntry {
    type V = EntryModel;

    open spec fn view(&self) -> EntryModel {
        EntryModel {
            backend: self.backend@,
            alias: self.alias.deep_view(),
            version: self.version@,
        }
    }
}

/// The named entries of the store as the mathematics sees them, in storage
/// order.
pub open spec fn entry_views(s: Seq<(String, PackageEntry)>) -> Seq<(Seq<char>, EntryModel)> {
    s.map_values(|e: (String, PackageEntry)| (e.0@, e.1@))
}

/// The map a run of named entries denotes, a later entry overriding an
/// earlier one of the same name.
pub open spec fn entries_map(s: Seq<(Seq<char>, EntryModel)>) -> Map<Seq<char>, EntryModel> {
    assoc_map(s)
}

/// Some entry of `s` carries the name `n`.
pub open spec fn seq_has_name(s: Seq<(Seq<char>, EntryModel)>, n: Seq<char>) -> bool {
    seq_has_key(s, n)
}

/// No two entries of `s` share a name.
pub open spec fn distinct_names(s: Seq<(Seq<char>, EntryModel)>) -> bool {
    forall|i: int, j: int|
        0 <= i < j < s.len() ==> (#[trigger] s[i]).0 != (#[trigger] s[j]).0
}

/// Entry names strictly ascend: the storage order of the store.
pub open spec fn sorted_names(s: Seq<(Seq<char>, EntryModel)>) -> bool {
    forall|i: int, j: int|
        0 <= i < j < s.len() ==> lex_lt((#[trigger] s[i]).0, (#[trigger] s[j]).0)
}

pub proof fn lemma_sorted_distinct(s: Seq<(Seq<char>, EntryModel)>)
    requires
        sorted_names(s),
    ensures
        distinct_names(s),
{
    assert forall|i: int, j: int| 0 <= i < j < s.len() implies (#[trigger] s[i]).0 != (
    #[trigger] s[j]).0 by {
        if s[i].0 == s[j].0 {
            lemma_lex_irreflexive(s[i].0);
        }
    }
}

/// A line the loader skips: entirely whitespace, or opening with `#`.
pub open spec fn is_comment_line(l: Seq<char>) -> bool {
    (forall|i: int| 0 <= i < l.len() ==> is_space_char(#[trigger] l[i])) || (l.len() > 0 && l[0]
        == '#')
}

/// The model of a load-time parse error.
pub enum ParseErrorModel {
    InvalidEntry { line: int },
    DuplicateEntry { line: int, name: Seq<char> },
}

/// A load-time parse error, citing the zero-based line it arose on.  Any
/// parse error is fatal: a broken world file is refused whole.
#[derive(Debug)]
pub enum WorldParseError {
    InvalidEntry { line: usize },
    DuplicateEntry { line: usize, name: String },
}

impl View for WorldParseError {
    type V = ParseErrorModel;

    open spec fn view(&self) -> ParseErrorModel {
        match self {
            WorldParseError::InvalidEntry { line } => ParseErrorModel::InvalidEntry {
                line: *line as int,
            },
            WorldParseError::DuplicateEntry { line, name } => ParseErrorModel::DuplicateEntry {
                line: *line as int,
                name: name@,
            },
        }
    }
}

/// The message shown for a load-time parse error.
pub open spec fn parse_error_message(m: ParseErrorModel) -> Seq<char> {
    match m {
        ParseErrorModel::InvalidEntry { line } => "line "@ + dec_digits(line as nat)
            + ": Invalid entry format"@,
        ParseErrorModel::DuplicateEntry { line, name } => "line "@ + dec_digits(line as nat)
            + ": Duplicate entry for "@ + name,
    }
}

impl WorldParseError {
    /// This error's message.
    pub fn message(&self) -> (r: String)
        ensures
            r@ == parse_error_message(self@),
    {
        match self {
            WorldParseError::InvalidEntry { line } => {
                let mut r = "line ".to_owned();
                let num = u64_to_string(*line as u64);
                r.append(num.as_str());
                r.append(": Invalid entry format");
                r
            },
            WorldParseError::DuplicateEntry { line, name } => {
                let mut r = "line ".to_owned();
                let num = u64_to_string(*line as u64);
                r.append(num.as_str());
                r.append(": Duplicate entry for ");
                r.append(name.as_str());
                r
            },
        }
    }
}

/// What one non-comment line denotes: `<backend> <name> <constraint>
/// [alias]`, whitespace-delimited, anything after the alias ignored.  A
/// line missing the name or the constraint is malformed.
pub open spec fn line_entry(l: Seq<char>) -> Option<(Seq<char>, EntryModel)> {
    let toks = tokens_of(l);
    if toks.len() < 3 {
        None
    } else {
        Some(
            (
                toks[1],
                EntryModel {
                    backend: toks[0],
                    alias: if toks.len() >= 4 {
                        Some(toks[3])
                    } else {
                        None
                    },
                    version: parse_version(toks[2]),
                },
            ),
        )
    }
}

/// Reading a run of lines, `base` the number of the first, into the map
/// accumulated so far: the first malformed line is fatal, and so is a name
/// already seen, which cites the repeating line.
pub open spec fn parse_lines(
    lines: Seq<Seq<char>>,
    base: int,
    acc: Map<Seq<char>, EntryModel>,
) -> Result<Map<Seq<char>, EntryModel>, ParseErrorModel>
    decreases lines.len(),
{
    if lines.len() == 0 {
        Ok(acc)
    } else if is_comment_line(lines[0]) {
        parse_lines(lines.drop_first(), base + 1, acc)
    } else {
        match line_entry(lines[0]) {
            None => Err(ParseErrorModel::InvalidEntry { line: base }),
            Some(p) => if acc.contains_key(p.0) {
                Err(ParseErrorModel::DuplicateEntry { line: base, name: p.0 })
            } else {
                parse_lines(lines.drop_first(), base + 1, acc.insert(p.0, p.1))
            },
        }
    }
}

/// The map a world file's text denotes, or its first parse error.
pub open spec fn parse_world(text: Seq<char>) -> Result<
    Map<Seq<char>, EntryModel>,
    ParseErrorModel,
> {
    parse_lines(lines_of(text), 0, Map::empty())
}

fn line_is_comment(l: &str) -> (r: bool)
    ensures
        r == is_comment_line(l@),
{
    let len = l.unicode_len();
    if len > 0 && l.get_char(0) == '#' {
        return true;
    }
    let mut i: usize = 0;
    while i < len
        invariant
            i <= len,
            forall|j: int| 0 <= j < i ==> is_space_char(#[trigger] l@[j]),
        decreases len - i,
    {
        if !is_space(l.get_char(i)) {
            return false;
        }
        i = i + 1;
    }
    true
}

/// The text of one stored entry without its closing newline.
pub open spec fn entry_line(name: Seq<char>, e: EntryModel) -> Seq<char> {
    e.backend + seq![' '] + name + seq![' '] + render_version(e.version) + (match e.alias {
        Some(a) => seq![' '] + a,
        None => Seq::<char>::empty(),
    })
}

/// The text of one stored entry: its line, newline included.
pub open spec fn render_entry(name: Seq<char>, e: EntryModel) -> Seq<char> {
    entry_line(name, e) + seq!['\n']
}

/// The text of a run of entries, one line each, in the run's order.
pub open spec fn render_world(s: Seq<(Seq<char>, EntryModel)>) -> Seq<char>
    decreases s.len(),
{
    if s.len() == 0 {
        Seq::empty()
    } else {
        render_entry(s[0].0, s[0].1) + render_world(s.drop_first())
    }
}

/// An entry the grammar can store and read back: every field a whole
/// token, the backend not opening like a comment, and the constraint
/// canonical, so that its text parses to it again.
pub open spec fn entry_clean(name: Seq<char>, e: EntryModel) -> bool {
    &&& token_ok(e.backend)
    &&& e.backend[0] != '#'
    &&& token_ok(name)
    &&& token_ok(render_version(e.version))
    &&& parse_version(render_version(e.version)) == e.version
    &&& match e.alias {
        Some(a) => token_ok(a),
        None => true,
    }
}

pub open spec fn clean_entries(s: Seq<(Seq<char>, EntryModel)>) -> bool {
    forall|i: int| 0 <= i < s.len() ==> entry_clean((#[trigger] s[i]).0, s[i].1)
}

/// Free of newlines: the text fits on one line.
spec fn line_clean(s: Seq<char>) -> bool {
    forall|i: int| 0 <= i < s.len() ==> s[i] != '\n'
}

proof fn lemma_line_clean_concat(x: Seq<char>, y: Seq<char>)
    requires
        line_clean(x),
        line_clean(y),
    ensures
        line_clean(x + y),
{
    assert forall|i: int| 0 <= i < (x + y).len() implies (x + y)[i] != '\n' by {
        if i < x.len() {
            assert((x + y)[i] == x[i]);
        } else {
            assert((x + y)[i] == y[i - x.len()]);
        }
    }
}

proof fn lemma_token_line_clean(t: Seq<char>)
    requires
        no_space(t),
    ensures
        line_clean(t),
{
    assert forall|i: int| 0 <= i < t.len() implies t[i] != '\n' by {
        assert(!is_space_char(t[i]));
    }
}

/// A clean entry's line is no comment, holds no newline, and reads back as
/// exactly that entry.
proof fn lemma_line_reads_back(name: Seq<char>, e: EntryModel)
    requires
        entry_clean(name, e),
    ensures
        line_clean(entry_line(name, e)),
        !is_comment_line(entry_line(name, e)),
        line_entry(entry_line(name, e)) == Some((name, e)),
{
    let l = entry_line(name, e);
    let b = e.backend;
    let rv = render_version(e.version);
    let sp = seq![' '];
    assert(sp[0] == ' ');
    lemma_token_line_clean(b);
    lemma_token_line_clean(name);
    lemma_token_line_clean(rv);
    assert(line_clean(sp));
    match e.alias {
        None => {
            lemma_line_clean_concat(b, sp);
            lemma_line_clean_concat(b + sp, name);
            lemma_line_clean_concat(b + sp + name, sp);
            lemma_line_clean_concat(b + sp + name + sp, rv);
            assert(l =~= b + sp + name + sp + rv);
            let r3 = rv;
            let r2 = name + (sp + r3);
            let r1 = sp + r2;
            assert(l =~= b + r1);
            lemma_tokens_of_token_prefix(b, r1);
            lemma_tokens_of_space_prefix(' ', r2);
            assert(r1 =~= seq![' '] + r2);
            lemma_tokens_of_token_prefix(name, sp + r3);
            lemma_tokens_of_space_prefix(' ', r3);
            assert(sp + r3 =~= seq![' '] + r3);
            assert(rv + Seq::<char>::empty() =~= rv);
            lemma_tokens_of_token_prefix(rv, Seq::empty());
            assert(tokens_of(Seq::<char>::empty()) =~= Seq::<Seq<char>>::empty());
            assert(tokens_of(rv) =~= seq![rv]);
            assert(tokens_of(l) =~= seq![b, name, rv]);
        },
        Some(a) => {
            lemma_token_line_clean(a);
            lemma_line_clean_concat(b, sp);
            lemma_line_clean_concat(b + sp, name);
            lemma_line_clean_concat(b + sp + name, sp);
            lemma_line_clean_concat(b + sp + name + sp, rv);
            lemma_line_clean_concat(b + sp + name + sp + rv, sp);
            lemma_line_clean_concat(b + sp + name + sp + rv + sp, a);
            assert(l =~= b + sp + name + sp + rv + sp + a);
            let r5 = a;
            let r4 = rv + (sp + r5);
            let r2 = name + (sp + r4);
            let r1 = sp + r2;
            assert(l =~= b + r1);
            lemma_tokens_of_token_prefix(b, r1);
            lemma_tokens_of_space_prefix(' ', r2);
            assert(r1 =~= seq![' '] + r2);
            lemma_tokens_of_token_prefix(name, sp + r4);
            lemma_tokens_of_space_prefix(' ', r4);
            assert(sp + r4 =~= seq![' '] + r4);
            lemma_tokens_of_token_prefix(rv, sp + r5);
            lemma_tokens_of_space_prefix(' ', r5);
            assert(sp + r5 =~= seq![' '] + r5);
            assert(a + Seq::<char>::empty() =~= a);
            lemma_tokens_of_token_prefix(a, Seq::empty());
            assert(tokens_of(Seq::<char>::empty()) =~= Seq::<Seq<char>>::empty());
            assert(tokens_of(a) =~= seq![a]);
            assert(tokens_of(l) =~= seq![b, name, rv, a]);
        },
    }
    assert(l[0] == b[0]);
    assert(!is_comment_line(l)) by {
        assert(!is_space_char(l[0]));
        assert(l[0] != '#');
    }
}

/// Rendering a run of distinct, clean entries and parsing the text back
/// succeeds and accumulates exactly those entries.
proof fn lemma_round_trip_lines(
    s: Seq<(Seq<char>, EntryModel)>,
    base: int,
    acc: Map<Seq<char>, EntryModel>,
)
    requires
        clean_entries(s),
        distinct_names(s),
        forall|i: int| 0 <= i < s.len() ==> !acc.contains_key((#[trigger] s[i]).0),
    ensures
        parse_lines(lines_of(render_world(s)), base, acc) == Ok::<
            Map<Seq<char>, EntryModel>,
            ParseErrorModel,
        >(assoc_map_acc(acc, s)),
    decreases s.len(),
{
    if s.len() == 0 {
        assert(lines_of(render_world(s)) =~= Seq::<Seq<char>>::empty());
    } else {
        let name = s[0].0;
        let e = s[0].1;
        let rest = s.drop_first();
        assert(forall|j: int| 0 <= j < rest.len() ==> rest[j] == s[j + 1]);
        let content = entry_line(name, e);
        let tail = render_world(rest);
        assert(render_world(s) == (content + seq!['\n']) + tail);
        assert((content + seq!['\n']) + tail =~= content + seq!['\n'] + tail);
        lemma_line_reads_back(name, e);
        lemma_lines_of_concat(content, tail);
        let lns = lines_of(render_world(s));
        assert(lns == seq![content] + lines_of(tail));
        assert(lns[0] == content);
        assert(lns.drop_first() =~= lines_of(tail));
        let acc2 = acc.insert(name, e);
        assert forall|i: int| 0 <= i < rest.len() implies !acc2.contains_key(
            (#[trigger] rest[i]).0,
        ) by {
            assert(rest[i] == s[i + 1]);
            assert(s[i + 1].0 != s[0].0);
        }
        lemma_round_trip_lines(rest, base + 1, acc2);
        assert(parse_lines(lns, base, acc) == parse_lines(lines_of(tail), base + 1, acc2));
    }
}

/// The world store's serialization law: the text of a run of entries with
/// distinct names, each of them storable as written, parses back to
/// exactly the map those entries denote.  Inserting an entry and reloading
/// the rewritten file therefore finds it again, under the backend recorded
/// for it.
pub proof fn lemma_world_round_trip(s: Seq<(Seq<char>, EntryModel)>)
    requires
        clean_entries(s),
        distinct_names(s),
    ensures
        parse_world(render_world(s)) == Ok::<Map<Seq<char>, EntryModel>, ParseErrorModel>(
            entries_map(s),
        ),
{
    lemma_round_trip_lines(s, 0, Map::empty());
}

/// Inserting a fresh name at its ordered position keeps the run sorted and
/// inserts into the denoted map.
proof fn lemma_map_insert_at(
    s: Seq<(Seq<char>, EntryModel)>,
    idx: int,
    name: Seq<char>,
    e: EntryModel,
)
    requires
        sorted_names(s),
        0 <= idx <= s.len(),
        forall|j: int| 0 <= j < idx ==> lex_lt((#[trigger] s[j]).0, name),
        idx < s.len() ==> lex_lt(name, s[idx].0),
    ensures
        sorted_names(s.insert(idx, (name, e))),
        entries_map(s.insert(idx, (name, e))) == entries_map(s).insert(name, e),
{
    let s2 = s.insert(idx, (name, e));
    s.insert_ensures(idx, (name, e));
    lemma_sorted_distinct(s);
    assert forall|j: int| idx <= j < s.len() implies lex_lt(name, (#[trigger] s[j]).0) by {
        if j > idx {
            lemma_lex_transitive(name, s[idx].0, s[j].0);
        }
    }
    assert forall|i: int, j: int| 0 <= i < j < s2.len() implies lex_lt(
        (#[trigger] s2[i]).0,
        (#[trigger] s2[j]).0,
    ) by {
        if i < idx && j < idx {
        } else if i < idx && j == idx {
            assert(s2[i] == s[i] && s2[j].0 == name);
        } else if i < idx && j > idx {
            assert(s2[i] == s[i] && s2[j] == s[j - 1]);
            if j - 1 < idx {
            } else {
                lemma_lex_transitive(s[i].0, name, s[j - 1].0);
            }
        } else if i == idx {
            assert(s2[j] == s[j - 1]);
        } else {
            assert(s2[i] == s[i - 1] && s2[j] == s[j - 1]);
        }
    }
    lemma_sorted_distinct(s2);
    lemma_assoc_map_acc_props(Map::empty(), s);
    lemma_assoc_map_acc_props(Map::empty(), s2);
    let m1 = entries_map(s2);
    let m2 = entries_map(s).insert(name, e);
    assert forall|n: Seq<char>| m1.contains_key(n) implies m2.contains_key(n) by {
        let i = choose|i: int| 0 <= i < s2.len() && (#[trigger] s2[i]).0 == n;
        if i < idx {
            assert(s[i].0 == n);
        } else if i > idx {
            assert(s[i - 1].0 == n);
        }
    }
    assert forall|n: Seq<char>| m2.contains_key(n) implies m1.contains_key(n) by {
        if n == name {
            assert(s2[idx].0 == n);
        } else {
            let i = choose|i: int| 0 <= i < s.len() && (#[trigger] s[i]).0 == n;
            if i < idx {
                assert(s2[i].0 == n);
            } else {
                assert(s2[i + 1].0 == n);
            }
        }
    }
    assert forall|n: Seq<char>| m1.contains_key(n) implies m1[n] == m2[n] by {
        if n == name {
            assert(forall|j: int| idx < j < s2.len() ==> (#[trigger] s2[j]).0 != name);
            lemma_assoc_map_acc_value(Map::empty(), s2, idx);
        } else {
            let i = choose|i: int| 0 <= i < s.len() && (#[trigger] s[i]).0 == n;
            let i2: int = if i < idx {
                i
            } else {
                i + 1
            };
            assert(s2[i2] == s[i]);
            assert(forall|j: int| i < j < s.len() ==> (#[trigger] s[j]).0 != n);
            assert(forall|j: int| i2 < j < s2.len() ==> (#[trigger] s2[j]).0 != n);
            lemma_assoc_map_acc_value(Map::empty(), s, i);
            lemma_assoc_map_acc_value(Map::empty(), s2, i2);
        }
    }
    assert(m1 =~= m2);
}

/// Overwriting the entry stored under a name keeps the run sorted and
/// overwrites in the denoted map.
proof fn lemma_map_update_at(
    s: Seq<(Seq<char>, EntryModel)>,
    idx: int,
    name: Seq<char>,
    e: EntryModel,
)
    requires
        sorted_names(s),
        0 <= idx < s.len(),
        s[idx].0 == name,
    ensures
        sorted_names(s.update(idx, (name, e))),
        entries_map(s.update(idx, (name, e))) == entries_map(s).insert(name, e),
{
    let s2 = s.update(idx, (name, e));
    lemma_sorted_distinct(s);
    assert(forall|i: int| 0 <= i < s2.len() ==> (#[trigger] s2[i]).0 == s[i].0);
    assert forall|i: int, j: int| 0 <= i < j < s2.len() implies lex_lt(
        (#[trigger] s2[i]).0,
        (#[trigger] s2[j]).0,
    ) by {
        assert(lex_lt(s[i].0, s[j].0));
    }
    lemma_sorted_distinct(s2);
    lemma_assoc_map_acc_props(Map::empty(), s);
    lemma_assoc_map_acc_props(Map::empty(), s2);
    let m1 = entries_map(s2);
    let m2 = entries_map(s).insert(name, e);
    assert forall|n: Seq<char>| m1.contains_key(n) implies m2.contains_key(n) by {
        let i = choose|i: int| 0 <= i < s2.len() && (#[trigger] s2[i]).0 == n;
        assert(s[i].0 == n);
    }
    assert forall|n: Seq<char>| m2.contains_key(n) implies m1.contains_key(n) by {
        if n == name {
            assert(s2[idx].0 == n);
        } else {
            let i = choose|i: int| 0 <= i < s.len() && (#[trigger] s[i]).0 == n;
            assert(s2[i].0 == n);
        }
    }
    assert forall|n: Seq<char>| m1.contains_key(n) implies m1[n] == m2[n] by {
        if n == name {
            assert(forall|j: int| idx < j < s2.len() ==> (#[trigger] s2[j]).0 != name);
            lemma_assoc_map_acc_value(Map::empty(), s2, idx);
        } else {
            let i = choose|i: int| 0 <= i < s.len() && (#[trigger] s[i]).0 == n;
            assert(i != idx);
            assert(s2[i] == s[i]);
            assert(forall|j: int| i < j < s.len() ==> (#[trigger] s[j]).0 != n);
            assert(forall|j: int| i < j < s2.len() ==> (#[trigger] s2[j]).0 != n);
            lemma_assoc_map_acc_value(Map::empty(), s, i);
            lemma_assoc_map_acc_value(Map::empty(), s2, i);
        }
    }
    assert(m1 =~= m2);
}

/// The world store.
#[derive(Debug)]
pub struct World {
    entries: Vec<(String, PackageEntry)>,
}

impl View for World {
    type V = Map<Seq<char>, EntryModel>;

    open spec fn view(&self) -> Map<Seq<char>, EntryModel> {
        entries_map(self.entry_list())
    }
}

impl World {
    #[verifier::type_invariant]
    spec fn wf(&self) -> bool {
        sorted_names(entry_views(self.entries@))
    }

    /// The store's entries in storage order: ascending by name.
    pub closed spec fn entry_list(&self) -> Seq<(Seq<char>, EntryModel)> {
        entry_views(self.entries@)
    }

    /// An empty store.
    pub fn empty() -> (w: World)
        ensures
            w@ == Map::<Seq<char>, EntryModel>::empty(),
            w.entry_list() == Seq::<(Seq<char>, EntryModel)>::empty(),
    {
        let w = World { entries: Vec::new() };
        proof {
            assert(entry_views(w.entries@) =~= Seq::<(Seq<char>, EntryModel)>::empty());
        }
        w
    }

    /// Whether some entry is stored under `name`.
    pub fn contains_name(&self, name: &str) -> (r: bool)
        ensures
            r == self@.contains_key(name@),
    {
        proof {
            use_type_invariant(self);
            lemma_assoc_map_acc_props(Map::empty(), self.entry_list());
        }
        let n = self.entries.len();
        let mut i: usize = 0;
        while i < n
            invariant
                n == self.entries@.len(),
                i <= n,
                forall|j: int| 0 <= j < i ==> (#[trigger] entry_views(self.entries@)[j]).0
                    != name@,
            decreases n - i,
        {
            if str_eq(self.entries[i].0.as_str(), name) {
                proof {
                    assert(entry_views(self.entries@)[i as int].0 == name@);
                    assert(seq_has_name(self.entry_list(), name@));
                }
                return true;
            }
            i = i + 1;
        }
        proof {
            if seq_has_name(self.entry_list(), name@) {
                let j = choose|j: int|
                    0 <= j < self.entry_list().len() && (#[trigger] self.entry_list()[j]).0
                        == name@;
                assert(false);
            }
        }
        false
    }

    /// Loads a store from the world file's text.  Blank and `#`-led lines
    /// are comments and are skipped; any other line must read `<backend>
    /// <name> <constraint> [alias]`, and a repeated package name is fatal,
    /// the error citing the repeating line.
    pub fn new(text: &str) -> (r: Result<World, WorldParseError>)
        ensures
            match r {
                Ok(w) => parse_world(text@) == Ok::<Map<Seq<char>, EntryModel>, ParseErrorModel>(
                    w@,
                ) && sorted_names(w.entry_list()),
                Err(e) => parse_world(text@) == Err::<Map<Seq<char>, EntryModel>, ParseErrorModel>(
                    e@,
                ),
            },
    {
        let lines = split_lines(text);
        let ghost lviews = lines@.map_values(|t: String| t@);
        let mut w = World::empty();
        let nl = lines.len();
        let mut k: usize = 0;
        proof {
            assert(lviews.skip(0) =~= lviews);
        }
        while k < nl
            invariant
                k <= nl,
                parse_world(text@) == parse_lines(lviews.skip(k as int), k as int, w@),
            decreases nl - k,
        {
            let line = &lines[k];
            proof {
                assert(lviews.skip(k as int)[0] == line@);
                assert(lviews.skip(k as int).drop_first() =~= lviews.skip(k as int + 1));
            }
            if !line_is_comment(line.as_str()) {
                let ghost toks = tokens_of(line@);
                let mut parts = split_ws(line.as_str());
                if parts.len() < 3 {
                    return Err(WorldParseError::InvalidEntry { line: k });
                }
                let ghost ps0 = parts@;
                let backend = parts.remove(0);
                let ghost ps1 = parts@;
                let name = parts.remove(0);
                let ghost ps2 = parts@;
                let vs = parts.remove(0);
                let ghost ps3 = parts@;
                let alias = if parts.len() > 0 {
                    Some(parts.remove(0))
                } else {
                    None
                };
                proof {
                    ps0.remove_ensures(0);
                    ps1.remove_ensures(0);
                    ps2.remove_ensures(0);
                    assert(backend@ == toks[0]);
                    assert(ps1[0] == ps0[1]);
                    assert(name@ == toks[1]);
                    assert(ps2[0] == ps1[1]);
                    assert(vs@ == toks[2]);
                    if ps3.len() > 0 {
                        ps3.remove_ensures(0);
                        assert(ps3[0] == ps0[3]);
                    }
                }
                if w.contains_name(name.as_str()) {
                    return Err(WorldParseError::DuplicateEntry { line: k, name });
                }
                let ver = PackageVersion::parse(vs.as_str());
                let entry = PackageEntry { backend, alias, version: ver };
                proof {
                    assert(line_entry(line@) == Some((name@, entry@)));
                }
                w.insert_entry(name, entry);
            }
            k = k + 1;
        }
        proof {
            assert(lviews.skip(nl as int) =~= Seq::<Seq<char>>::empty());
            use_type_invariant(&w);
        }
        Ok(w)
    }

    /// The whole store as world-file text: one line per entry, ascending by
    /// package name, mirroring the parse grammar.
    pub fn serialize(&self) -> (r: String)
        ensures
            r@ == render_world(self.entry_list()),
            sorted_names(self.entry_list()),
            clean_entries(self.entry_list()) ==> parse_world(r@) == Ok::<
                Map<Seq<char>, EntryModel>,
                ParseErrorModel,
            >(self@),
    {
        proof {
            use_type_invariant(self);
            if clean_entries(self.entry_list()) {
                lemma_sorted_distinct(self.entry_list());
                lemma_world_round_trip(self.entry_list());
            }
            reveal_strlit(" ");
            reveal_strlit("\n");
            assert(" "@ =~= seq![' ']);
            assert("\n"@ =~= seq!['\n']);
            assert(self.entry_list().skip(0) =~= self.entry_list());
        }
        let mut out = String::new();
        let n = self.entries.len();
        let mut k: usize = 0;
        while k < n
            invariant
                k <= n,
                render_world(self.entry_list()) == out@ + render_world(
                    self.entry_list().skip(k as int),
                ),
            decreases n - k,
        {
            let pair = &self.entries[k];
            let mut line = pair.1.backend.clone();
            line.append(" ");
            line.append(pair.0.as_str());
            line.append(" ");
            let vt = pair.1.version.to_text();
            line.append(vt.as_str());
            match &pair.1.alias {
                Some(a) => {
                    line.append(" ");
                    line.append(a.as_str());
                },
                None => {},
            }
            line.append("\n");
            proof {
                let el = self.entry_list();
                assert(line@ =~= render_entry(el[k as int].0, el[k as int].1));
                assert(el.skip(k as int).drop_first() =~= el.skip(k as int + 1));
                assert(render_world(el.skip(k as int)) == render_entry(el[k as int].0, el[k as int].1)
                    + render_world(el.skip(k as int + 1)));
                assert(out@ + (line@ + render_world(el.skip(k as int + 1))) =~= (out@ + line@)
                    + render_world(el.skip(k as int + 1)));
            }
            out.append(line.as_str());
            k = k + 1;
        }
        proof {
            assert(self.entry_list().skip(n as int) =~= Seq::<(Seq<char>, EntryModel)>::empty());
            assert(out@ + Seq::<char>::empty() =~= out@);
        }
        out
    }

    /// Stores `entry` under `name`, overwriting any entry the name already
    /// had.
    fn insert_entry(&mut self, name: String, entry: PackageEntry)
        ensures
            final(self)@ == old(self)@.insert(name@, entry@),
            final(self).entry_list().len() <= old(self).entry_list().len() + 1,
    {
        proof {
            use_type_invariant(&*self);
        }
        let mut v: Vec<(String, PackageEntry)> = Vec::new();
        proof {
            assert(entry_views(v@) =~= Seq::<(Seq<char>, EntryModel)>::empty());
        }
        core::mem::swap(&mut self.entries, &mut v);
        let ghost s = entry_views(v@);
        let n = v.len();
        let mut idx: usize = 0;
        while idx < n && str_lt(v[idx].0.as_str(), name.as_str())
            invariant
                idx <= n,
                forall|j: int| 0 <= j < idx ==> lex_lt((#[trigger] s[j]).0, name@),
            decreases n - idx,
        {
            idx = idx + 1;
        }
        let at_name = if idx < n {
            str_eq(v[idx].0.as_str(), name.as_str())
        } else {
            false
        };
        if at_name {
            let ghost vs0 = v@;
            let _replaced = v.remove(idx);
            let ghost vs1 = v@;
            v.insert(idx, (name, entry));
            proof {
                let pair = (name@, entry@);
                vs0.remove_ensures(idx as int);
                vs1.insert_ensures(idx as int, v@[idx as int]);
                assert forall|k: int| 0 <= k < entry_views(v@).len() implies entry_views(v@)[k]
                    == s.update(idx as int, pair)[k] by {
                    if k < idx {
                        assert(v@[k] == vs0[k]);
                    } else if k > idx {
                        assert(v@[k] == vs1[k - 1]);
                        assert(vs1[k - 1] == vs0[k]);
                    }
                }
                assert(entry_views(v@) =~= s.update(idx as int, pair));
                lemma_map_update_at(s, idx as int, name@, entry@);
            }
        } else {
            proof {
                if idx < n {
                    lemma_lex_connex(name@, s[idx as int].0);
                }
            }
            let ghost vs0 = v@;
            v.insert(idx, (name, entry));
            proof {
                let pair = (name@, entry@);
                vs0.insert_ensures(idx as int, v@[idx as int]);
                s.insert_ensures(idx as int, pair);
                assert forall|k: int| 0 <= k < entry_views(v@).len() implies entry_views(v@)[k]
                    == s.insert(idx as int, pair)[k] by {
                    if k < idx {
                        assert(v@[k] == vs0[k]);
                    } else if k > idx {
                        assert(v@[k] == vs0[k - 1]);
                    }
                }
                assert(entry_views(v@) =~= s.insert(idx as int, pair));
                lemma_map_insert_at(s, idx as int, name@, entry@);
            }
        }
        self.entries = v;
    }

    /// Records that `p` is installed and owned by the backend named
    /// `bname`: the package's version text is parsed into a constraint and
    /// the entry stored under the package's name, overwriting any earlier
    /// entry.  Whether an earlier entry should first be confirmed away is
    /// the caller's affair, answered by `contains_name`.
    pub fn add_package(&mut self, p: Package, bname: &str)
        ensures
            final(self)@ == old(self)@.insert(
                p.name@,
                EntryModel {
                    backend: bname@,
                    alias: p.alias.deep_view(),
                    version: parse_version(p.version@),
                },
            ),
    {
        let ver = PackageVersion::parse(p.version.as_str());
        let entry = PackageEntry { backend: bname.to_owned(), alias: p.alias, version: ver };
        self.insert_entry(p.name, entry);
    }

    /// True exactly when an entry for the package's name exists and records
    /// this backend as the owner.
    pub fn has_package(&self, p: &Package, b: &Backend) -> (r: bool)
        ensures
            r == (self@.contains_key(p.name@) && self@[p.name@].backend == b.name@),
    {
        proof {
            use_type_invariant(self);
            lemma_assoc_map_acc_props(Map::empty(), self.entry_list());
            lemma_sorted_distinct(self.entry_list());
        }
        let n = self.entries.len();
        let mut i: usize = 0;
        while i < n
            invariant
                n == self.entries@.len(),
                i <= n,
                forall|j: int| 0 <= j < i ==> (#[trigger] entry_views(self.entries@)[j]).0
                    != p.name@,
            decreases n - i,
        {
            if str_eq(self.entries[i].0.as_str(), p.name.as_str()) {
                proof {
                    assert(entry_views(self.entries@)[i as int].0 == p.name@);
                    assert(seq_has_name(self.entry_list(), p.name@));
                    assert forall|j: int| i < j < self.entry_list().len() implies (
                    #[trigger] self.entry_list()[j]).0 != self.entry_list()[i as int].0 by {
                        assert(distinct_names(self.entry_list()));
                    }
                    lemma_assoc_map_acc_value(
                        Map::empty(),
                        self.entry_list(),
                        i as int,
                    );
                    assert(self@[p.name@] == entry_views(self.entries@)[i as int].1);
                }
                return str_eq(self.entries[i].1.backend.as_str(), b.name.as_str());
            }
            i = i + 1;
        }
        proof {
            if seq_has_name(self.entry_list(), p.name@) {
                let j = choose|j: int|
                    0 <= j < self.entry_list().len() && (#[trigger] self.entry_list()[j]).0
                        == p.name@;
                assert(false);
            }
        }
        false
    }
}

} // verus!
