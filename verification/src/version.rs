//! The compact version-constraint grammar of the world store.
//!
//! Textual form: `"v"` is an exact version, `"v.."` a lower bound, `"..v"`
//! an upper bound, `"a..b"` a range, and `".."` no constraint at all.  The
//! first occurrence of `".."` splits the text; parsing is total, so a string
//! without `".."` is always read as an exact version, even when it was not
//! meant as one.

use vstd::prelude::*;

verus! {

/// The mathematical form of a version constraint: each variant over the
/// character sequences it carries.
pub enum VersionModel {
    Exact(Seq<char>),
    LowerBound(Seq<char>),
    UpperBound(Seq<char>),
    Range(Seq<char>, Seq<char>),
    Any,
}

/// A version constraint as stored and rendered.
#[derive(Debug)]
pub enum PackageVersion {
    Exact(String),
    LowerBound(String),
    UpperBound(String),
    Range(String, String),
    Any,
}

impl View for PackageVersion {
    type V = VersionModel;

    open spec fn view(&self) -> VersionModel {
        match self {
            PackageVersion::Exact(s) => VersionModel::Exact(s@),
            PackageVersion::LowerBound(s) => VersionModel::LowerBound(s@),
            PackageVersion::UpperBound(s) => VersionModel::UpperBound(s@),
            PackageVersion::Range(a, b) => VersionModel::Range(a@, b@),
            PackageVersion::Any => VersionModel::Any,
        }
    }
}

/// Whether positions `i` and `i + 1` of `s` hold the delimiter `".."`.
pub open spec fn dd_at(s: Seq<char>, i: int) -> bool {
    0 <= i && i + 1 < s.len() && s[i] == '.' && s[i + 1] == '.'
}

/// No occurrence of `".."` anywhere in `s`.
pub open spec fn dd_free(s: Seq<char>) -> bool {
    forall|i: int| !dd_at(s, i)
}

/// The index of the first occurrence of `".."` in `s`, if any.
pub open spec fn find_dd_spec(s: Seq<char>) -> Option<nat>
    decreases s.len(),
{
    if s.len() < 2 {
        None
    } else if s[0] == '.' && s[1] == '.' {
        Some(0)
    } else {
        match find_dd_spec(s.drop_first()) {
            None => None,
            Some(i) => Some((i + 1) as nat),
        }
    }
}

pub proof fn lemma_find_dd_props(s: Seq<char>)
    ensures
        match find_dd_spec(s) {
            None => dd_free(s),
            Some(i) => dd_at(s, i as int) && (forall|j: int| j < i ==> !dd_at(s, j)),
        },
    decreases s.len(),
{
    if s.len() < 2 {
    } else if s[0] == '.' && s[1] == '.' {
    } else {
        lemma_find_dd_props(s.drop_first());
        assert(forall|j: int|
            0 <= j < s.drop_first().len() ==> s.drop_first()[j] == s[j + 1]);
        match find_dd_spec(s.drop_first()) {
            None => {
                assert forall|i: int| !dd_at(s, i) by {
                    if 1 <= i && i + 1 < s.len() {
                        assert(!dd_at(s.drop_first(), i - 1));
                    }
                }
            },
            Some(i0) => {
                assert(dd_at(s.drop_first(), i0 as int));
                assert forall|j: int| j < i0 + 1 implies !dd_at(s, j) by {
                    if 1 <= j {
                        assert(!dd_at(s.drop_first(), j - 1));
                    }
                }
            },
        }
    }
}

pub proof fn lemma_find_dd_at(s: Seq<char>, i: int)
    requires
        dd_at(s, i),
        forall|j: int| j < i ==> !dd_at(s, j),
    ensures
        find_dd_spec(s) == Some(i as nat),
    decreases s.len(),
{
    if i > 0 {
        assert(forall|j: int|
            0 <= j < s.drop_first().len() ==> s.drop_first()[j] == s[j + 1]);
        assert forall|j: int| j < i - 1 implies !dd_at(s.drop_first(), j) by {
            if 0 <= j {
                assert(!dd_at(s, j + 1));
            }
        }
        lemma_find_dd_at(s.drop_first(), i - 1);
        assert(!dd_at(s, 0));
        assert(!(s[0] == '.' && s[1] == '.'));
        assert(find_dd_spec(s) == Some((((i - 1) as nat + 1)) as nat));
        assert((((i - 1) as nat + 1)) as nat == i as nat);
    }
}

fn find_dd(s: &str) -> (r: Option<usize>)
    ensures
        match r {
            None => find_dd_spec(s@) is None,
            Some(i) => find_dd_spec(s@) == Some(i as nat),
        },
{
    let len = s.unicode_len();
    if len < 2 {
        return None;
    }
    let mut i: usize = 0;
    while i + 1 < len
        invariant
            len == s@.len(),
            i + 1 <= len,
            forall|j: int| j < i ==> !dd_at(s@, j),
        decreases len - i,
    {
        if s.get_char(i) == '.' && s.get_char(i + 1) == '.' {
            proof {
                lemma_find_dd_at(s@, i as int);
            }
            return Some(i);
        }
        proof {
            assert forall|j: int| j < i + 1 implies !dd_at(s@, j) by {
                if j == i {
                    assert(!(s@[j] == '.' && s@[j + 1] == '.'));
                }
            }
        }
        i = i + 1;
    }
    proof {
        lemma_find_dd_props(s@);
        match find_dd_spec(s@) {
            None => {},
            Some(k) => {
                assert(dd_at(s@, k as int));
                assert(false);
            },
        }
    }
    None
}

/// What parsing yields on every string: the text split at the first `".."`.
pub open spec fn parse_version(s: Seq<char>) -> VersionModel {
    match find_dd_spec(s) {
        None => VersionModel::Exact(s),
        Some(i) => {
            let a = s.take(i as int);
            let b = s.skip(i as int + 2);
            if a.len() == 0 && b.len() == 0 {
                VersionModel::Any
            } else if b.len() == 0 {
                VersionModel::LowerBound(a)
            } else if a.len() == 0 {
                VersionModel::UpperBound(b)
            } else {
                VersionModel::Range(a, b)
            }
        },
    }
}

/// The `".."` delimiter.
pub open spec fn dd_seq() -> Seq<char> {
    seq!['.', '.']
}

/// The canonical text of a constraint, mirroring the parse grammar.
pub open spec fn render_version(v: VersionModel) -> Seq<char> {
    match v {
        VersionModel::Exact(s) => s,
        VersionModel::LowerBound(s) => s + dd_seq(),
        VersionModel::UpperBound(s) => dd_seq() + s,
        VersionModel::Range(a, b) => a + dd_seq() + b,
        VersionModel::Any => dd_seq(),
    }
}

impl PackageVersion {
    /// Total parse: any string lacking `".."` becomes an exact version.
    pub fn parse(s: &str) -> (r: PackageVersion)
        ensures
            r@ == parse_version(s@),
    {
        let len = s.unicode_len();
        match find_dd(s) {
            None => PackageVersion::Exact(s.to_owned()),
            Some(i) => {
                proof {
                    lemma_find_dd_props(s@);
                }
                let a = s.substring_char(0, i);
                let b = s.substring_char(i + 2, len);
                proof {
                    assert(a@ =~= s@.take(i as int));
                    assert(b@ =~= s@.skip(i as int + 2));
                }
                if a.is_empty() && b.is_empty() {
                    PackageVersion::Any
                } else if b.is_empty() {
                    PackageVersion::LowerBound(a.to_owned())
                } else if a.is_empty() {
                    PackageVersion::UpperBound(b.to_owned())
                } else {
                    PackageVersion::Range(a.to_owned(), b.to_owned())
                }
            },
        }
    }

    /// The canonical text of this constraint.
    pub fn to_text(&self) -> (r: String)
        ensures
            r@ == render_version(self@),
    {
        proof {
            reveal_strlit("..");
            assert(".."@ =~= dd_seq());
        }
        match self {
            PackageVersion::Exact(s) => s.clone(),
            PackageVersion::LowerBound(s) => {
                let mut r = s.clone();
                r.append("..");
                r
            },
            PackageVersion::UpperBound(s) => {
                let mut r = "..".to_owned();
                r.append(s.as_str());
                r
            },
            PackageVersion::Range(a, b) => {
                let mut r = a.clone();
                r.append("..");
                r.append(b.as_str());
                r
            },
            PackageVersion::Any => "..".to_owned(),
        }
    }
}

/// The first `".."` of `a ++ ".." ++ b` is the one written between `a` and
/// `b`, provided `a` holds none and does not end with a dot.
proof fn lemma_find_dd_concat(a: Seq<char>, b: Seq<char>)
    requires
        dd_free(a),
        a.len() == 0 || a.last() != '.',
    ensures
        find_dd_spec(a + dd_seq() + b) == Some(a.len() as nat),
{
    let s = a + dd_seq() + b;
    assert(s[a.len() as int] == '.');
    assert(s[a.len() as int + 1] == '.');
    assert(dd_at(s, a.len() as int));
    assert forall|j: int| j < a.len() implies !dd_at(s, j) by {
        if 0 <= j {
            if j + 1 < a.len() {
                assert(!dd_at(a, j));
                assert(s[j] == a[j]);
                assert(s[j + 1] == a[j + 1]);
            } else {
                assert(j == a.len() - 1);
                assert(s[j] == a[j]);
                assert(a[j] == a.last());
            }
        }
    }
    lemma_find_dd_at(s, a.len() as int);
}

/// An exact version whose text holds no `".."` survives a serialize-parse
/// round trip unchanged.
pub proof fn lemma_exact_round_trip(s: Seq<char>)
    requires
        dd_free(s),
    ensures
        parse_version(render_version(VersionModel::Exact(s))) == VersionModel::Exact(s),
{
    lemma_find_dd_props(s);
    match find_dd_spec(s) {
        None => {},
        Some(i) => {
            assert(dd_at(s, i as int));
            assert(false);
        },
    }
}

/// One normalization pass is idempotent: parsing the canonical text of a
/// parsed constraint gives the same constraint, whatever the input was.
pub proof fn lemma_parse_render_parse(s: Seq<char>)
    ensures
        parse_version(render_version(parse_version(s))) == parse_version(s),
{
    lemma_find_dd_props(s);
    match find_dd_spec(s) {
        None => {
            lemma_exact_round_trip(s);
        },
        Some(i0) => {
            let i = i0 as int;
            let a = s.take(i);
            let b = s.skip(i + 2);
            assert(dd_at(s, i));
            assert forall|j: int| !dd_at(a, j) by {
                if 0 <= j && j + 1 < a.len() {
                    assert(!dd_at(s, j));
                    assert(a[j] == s[j]);
                    assert(a[j + 1] == s[j + 1]);
                }
            }
            if a.len() > 0 && a.last() == '.' {
                assert(s[i - 1] == a.last());
                assert(dd_at(s, i - 1));
                assert(false);
            }
            if a.len() == 0 && b.len() == 0 {
                lemma_find_dd_concat(Seq::empty(), Seq::empty());
                assert(Seq::empty() + dd_seq() + Seq::<char>::empty() =~= dd_seq());
                assert(dd_seq().take(0) =~= Seq::<char>::empty());
                assert(dd_seq().skip(2) =~= Seq::<char>::empty());
            } else if b.len() == 0 {
                lemma_find_dd_concat(a, Seq::empty());
                let r = a + dd_seq();
                assert(a + dd_seq() + Seq::<char>::empty() =~= r);
                assert(r.take(a.len() as int) =~= a);
                assert(r.skip(a.len() as int + 2) =~= Seq::<char>::empty());
            } else if a.len() == 0 {
                lemma_find_dd_concat(Seq::empty(), b);
                let r = dd_seq() + b;
                assert(Seq::empty() + dd_seq() + b =~= r);
                assert(r.take(0) =~= Seq::<char>::empty());
                assert(r.skip(2) =~= b);
            } else {
                lemma_find_dd_concat(a, b);
                let r = a + dd_seq() + b;
                assert(r.take(a.len() as int) =~= a);
                assert(r.skip(a.len() as int + 2) =~= b);
            }
        },
    }
}

impl Clone for PackageVersion {
    fn clone(&self) -> (r: Self)
        ensures
            r == *self,
    {
        match self {
            PackageVersion::Exact(s) => PackageVersion::Exact(s.clone()),
            PackageVersion::LowerBound(s) => PackageVersion::LowerBound(s.clone()),
            PackageVersion::UpperBound(s) => PackageVersion::UpperBound(s.clone()),
            PackageVersion::Range(a, b) => PackageVersion::Range(a.clone(), b.clone()),
            PackageVersion::Any => PackageVersion::Any,
        }
    }
}

impl PartialEq for PackageVersion {
    fn eq(&self, other: &Self) -> (r: bool) {
        match (self, other) {
            (PackageVersion::Exact(a), PackageVersion::Exact(b)) => *a == *b,
            (PackageVersion::LowerBound(a), PackageVersion::LowerBound(b)) => *a == *b,
            (PackageVersion::UpperBound(a), PackageVersion::UpperBound(b)) => *a == *b,
            (PackageVersion::Range(a, b), PackageVersion::Range(c, d)) => *a == *c && *b == *d,
            (PackageVersion::Any, PackageVersion::Any) => true,
            _ => false,
        }
    }
}

impl vstd::std_specs::cmp::PartialEqSpecImpl for PackageVersion {
    open spec fn obeys_eq_spec() -> bool {
        true
    }

    open spec fn eq_spec(&self, other: &Self) -> bool {
        self@ == other@
    }
}

} // verus!
