//! Command-line argument parsing: flags and verbs.
//!
//! An argument opening with `-` is a flag: its leading dashes are stripped,
//! and a `=` splits it into key and value.  A repeated key keeps its last
//! value.  Every other argument is a verb, kept in order.

use vstd::prelude::*;

use crate::seqs::{
    assoc_map, lemma_assoc_map_acc_props, lemma_assoc_map_acc_value, lemma_assoc_map_push,
    seq_has_key,
};
use crate::text::{find_char, find_char_spec, str_eq};

verus! {

/// An argument that names a flag.
pub open spec fn is_flag(a: Seq<char>) -> bool {
    a.len() > 0 && a[0] == '-'
}

/// The flag's text without its leading dashes.
pub open spec fn strip_dashes(a: Seq<char>) -> Seq<char>
    decreases a.len(),
{
    if a.len() > 0 && a[0] == '-' {
        strip_dashes(a.drop_first())
    } else {
        a
    }
}

/// The key and optional value of a flag argument: split at the first `=`
/// after the dashes, the whole remainder the key when there is none.
pub open spec fn flag_pair(a: Seq<char>) -> (Seq<char>, Option<Seq<char>>) {
    let k = strip_dashes(a);
    match find_char_spec(k, '=') {
        None => (k, None),
        Some(i) => (k.take(i as int), Some(k.skip(i as int + 1))),
    }
}

/// What parsing a run of arguments yields: the flag map, a later value for
/// a key overriding an earlier one, and the verbs in order.
pub open spec fn parse_args_spec(args: Seq<Seq<char>>) -> (
    Map<Seq<char>, Option<Seq<char>>>,
    Seq<Seq<char>>,
)
    decreases args.len(),
{
    if args.len() == 0 {
        (Map::empty(), Seq::empty())
    } else {
        let prev = parse_args_spec(args.drop_last());
        let a = args.last();
        if is_flag(a) {
            (prev.0.insert(flag_pair(a).0, flag_pair(a).1), prev.1)
        } else {
            (prev.0, prev.1.push(a))
        }
    }
}

/// The views of stored flag pairs.
pub open spec fn flag_views(s: Seq<(String, Option<String>)>) -> Seq<
    (Seq<char>, Option<Seq<char>>),
> {
    s.map_values(|p: (String, Option<String>)| (p.0@, p.1.deep_view()))
}

proof fn lemma_strip_dashes_at(a: Seq<char>, d: int)
    requires
        0 <= d <= a.len(),
        forall|j: int| 0 <= j < d ==> a[j] == '-',
        d == a.len() || a[d] != '-',
    ensures
        strip_dashes(a) == a.skip(d),
    decreases d,
{
    if d == 0 {
        assert(a.skip(0) =~= a);
    } else {
        assert(forall|j: int|
            0 <= j < a.drop_first().len() ==> a.drop_first()[j] == a[j + 1]);
        lemma_strip_dashes_at(a.drop_first(), d - 1);
        assert(a.drop_first().skip(d - 1) =~= a.skip(d));
    }
}

/// The parsed flags, as a map from key to optional value.
pub struct Args(Vec<(String, Option<String>)>);

impl View for Args {
    type V = Map<Seq<char>, Option<Seq<char>>>;

    closed spec fn view(&self) -> Map<Seq<char>, Option<Seq<char>>> {
        assoc_map(flag_views(self.0@))
    }
}

impl Args {
    /// Whether the flag was given bare: present, with no `=` value.
    pub fn get(&self, key: &str) -> (r: bool)
        ensures
            r == (self@.contains_key(key@) && self@[key@] is None),
    {
        proof {
            lemma_assoc_map_acc_props(Map::empty(), flag_views(self.0@));
        }
        let n = self.0.len();
        let mut i: usize = n;
        while i > 0
            invariant
                i <= n,
                forall|j: int| i <= j < n ==> (#[trigger] flag_views(self.0@)[j]).0 != key@,
            decreases i,
        {
            let i2 = i - 1;
            if str_eq(self.0[i2].0.as_str(), key) {
                proof {
                    assert(flag_views(self.0@)[i2 as int].0 == key@);
                    lemma_assoc_map_acc_value(Map::empty(), flag_views(self.0@), i2 as int);
                }
                return self.0[i2].1.is_none();
            }
            i = i2;
        }
        proof {
            if seq_has_key(flag_views(self.0@), key@) {
                let j = choose|j: int|
                    0 <= j < flag_views(self.0@).len() && (#[trigger] flag_views(self.0@)[j]).0
                        == key@;
                assert(false);
            }
        }
        false
    }

    /// The flag's stored value slot, if the flag was given at all: `None`
    /// when absent, `Some(None)` when given without a value — which the
    /// caller treats as a fatal usage error — and `Some(Some(v))` when
    /// given as `key=v`.
    pub fn get_with_opt(&self, key: &str) -> (r: Option<Option<String>>)
        ensures
            match r {
                None => !self@.contains_key(key@),
                Some(v) => self@.contains_key(key@) && v.deep_view() == self@[key@],
            },
    {
        proof {
            lemma_assoc_map_acc_props(Map::empty(), flag_views(self.0@));
        }
        let n = self.0.len();
        let mut i: usize = n;
        while i > 0
            invariant
                i <= n,
                forall|j: int| i <= j < n ==> (#[trigger] flag_views(self.0@)[j]).0 != key@,
            decreases i,
        {
            let i2 = i - 1;
            if str_eq(self.0[i2].0.as_str(), key) {
                proof {
                    assert(flag_views(self.0@)[i2 as int].0 == key@);
                    lemma_assoc_map_acc_value(Map::empty(), flag_views(self.0@), i2 as int);
                }
                let v = match &self.0[i2].1 {
                    None => None,
                    Some(s) => Some(s.clone()),
                };
                return Some(v);
            }
            i = i2;
        }
        proof {
            if seq_has_key(flag_views(self.0@), key@) {
                let j = choose|j: int|
                    0 <= j < flag_views(self.0@).len() && (#[trigger] flag_views(self.0@)[j]).0
                        == key@;
                assert(false);
            }
        }
        None
    }

    /// Splits a run of arguments into the flag map and the verbs.
    pub fn parse(args: Vec<String>) -> (r: (Args, Vec<String>))
        ensures
            ({
                let m = parse_args_spec(args@.map_values(|s: String| s@));
                r.0@ == m.0 && r.1@.map_values(|s: String| s@) == m.1
            }),
    {
        let ghost av = args@.map_values(|s: String| s@);
        let mut flags: Vec<(String, Option<String>)> = Vec::new();
        let mut verbs: Vec<String> = Vec::new();
        let n = args.len();
        let mut k: usize = 0;
        proof {
            assert(av.take(0) =~= Seq::<Seq<char>>::empty());
            assert(flag_views(flags@) =~= Seq::<(Seq<char>, Option<Seq<char>>)>::empty());
        }
        while k < n
            invariant
                k <= n,
                assoc_map(flag_views(flags@)) == parse_args_spec(av.take(k as int)).0,
                verbs@.map_values(|s: String| s@) == parse_args_spec(av.take(k as int)).1,
            decreases n - k,
        {
            let a = &args[k];
            proof {
                assert(av.take(k as int + 1).drop_last() =~= av.take(k as int));
                assert(av.take(k as int + 1).last() == a@);
            }
            let alen = a.as_str().unicode_len();
            if alen > 0 && a.as_str().get_char(0) == '-' {
                let mut d: usize = 0;
                while d < alen && a.as_str().get_char(d) == '-'
                    invariant
                        d <= alen,
                        forall|j: int| 0 <= j < d ==> a@[j] == '-',
                    decreases alen - d,
                {
                    d = d + 1;
                }
                proof {
                    lemma_strip_dashes_at(a@, d as int);
                }
                let stripped = a.as_str().substring_char(d, alen);
                proof {
                    assert(stripped@ =~= a@.skip(d as int));
                }
                let slen = stripped.unicode_len();
                let (key, val) = match find_char(stripped, '=') {
                    None => (stripped.to_owned(), None),
                    Some(e) => {
                        proof {
                            crate::text::lemma_find_char_props(stripped@, '=');
                        }
                        let key = stripped.substring_char(0, e);
                        let val = stripped.substring_char(e + 1, slen);
                        proof {
                            assert(key@ =~= stripped@.take(e as int));
                            assert(val@ =~= stripped@.skip(e as int + 1));
                        }
                        (key.to_owned(), Some(val.to_owned()))
                    },
                };
                proof {
                    assert((key@, val.deep_view()) == flag_pair(a@));
                    lemma_assoc_map_push(flag_views(flags@), key@, val.deep_view());
                    assert(flag_views(flags@.push((key, val))) =~= flag_views(flags@).push(
                        (key@, val.deep_view()),
                    ));
                }
                flags.push((key, val));
            } else {
                let owned = a.clone();
                proof {
                    assert((verbs@.push(owned)).map_values(|s: String| s@) =~= verbs@.map_values(
                        |s: String| s@,
                    ).push(a@));
                }
                verbs.push(owned);
            }
            k = k + 1;
        }
        proof {
            assert(av.take(n as int) =~= av);
        }
        (Args(flags), verbs)
    }
}

} // verus!
