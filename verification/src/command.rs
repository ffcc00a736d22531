//! The command orchestrator's decisions: which action the verbs name, and,
//! for an addition, which search hits are candidates and which numbered
//! choice selects one.  Dispatching the action, prompting, and printing
//! happen outside the library.

use vstd::prelude::*;

use crate::backend::Package;
use crate::seqs::{find_index, lemma_find_index_at, lemma_find_index_props};
use crate::text::str_eq;

verus! {

/// The model of a resolved action.
pub enum ActionModel {
    Search(Seq<Seq<char>>),
    Info(Seq<char>),
    Add(Seq<char>),
    Test,
}

/// One operator-requested action with its arguments.
pub enum Action {
    Search(Vec<String>),
    Info(String),
    Add(String),
    Test,
}

impl View for Action {
    type V = ActionModel;

    open spec fn view(&self) -> ActionModel {
        match self {
            Action::Search(args) => ActionModel::Search(args.deep_view()),
            Action::Info(arg) => ActionModel::Info(arg@),
            Action::Add(arg) => ActionModel::Add(arg@),
            Action::Test => ActionModel::Test,
        }
    }
}

/// The model of a verb-resolution error.
pub enum CmdErrorModel {
    InfoTooManyArguments,
    InfoMissingArgument,
    AddMissingArgument,
    UnknownAction(Seq<char>),
    NoVerbs,
}

/// A fatal error in resolving the verbs into an action.
pub enum CmdError {
    InfoTooManyArguments,
    InfoMissingArgument,
    AddMissingArgument,
    UnknownAction(String),
    NoVerbs,
}

impl View for CmdError {
    type V = CmdErrorModel;

    open spec fn view(&self) -> CmdErrorModel {
        match self {
            CmdError::InfoTooManyArguments => CmdErrorModel::InfoTooManyArguments,
            CmdError::InfoMissingArgument => CmdErrorModel::InfoMissingArgument,
            CmdError::AddMissingArgument => CmdErrorModel::AddMissingArgument,
            CmdError::UnknownAction(a) => CmdErrorModel::UnknownAction(a@),
            CmdError::NoVerbs => CmdErrorModel::NoVerbs,
        }
    }
}

/// The message shown for a verb-resolution error.
pub open spec fn cmd_error_message(m: CmdErrorModel) -> Seq<char> {
    match m {
        CmdErrorModel::InfoTooManyArguments => "action `info` expected only one argument"@,
        CmdErrorModel::InfoMissingArgument => "action `info` expected an argument"@,
        CmdErrorModel::AddMissingArgument => "action `add` expected at least one argument"@,
        CmdErrorModel::UnknownAction(a) => "Unknown action `"@ + a + "`"@,
        CmdErrorModel::NoVerbs => "No verbs provided"@,
    }
}

impl CmdError {
    /// This error's message.
    pub fn message(&self) -> (r: String)
        ensures
            r@ == cmd_error_message(self@),
    {
        match self {
            CmdError::InfoTooManyArguments => "action `info` expected only one argument".to_owned(),
            CmdError::InfoMissingArgument => "action `info` expected an argument".to_owned(),
            CmdError::AddMissingArgument => "action `add` expected at least one argument".to_owned(),
            CmdError::UnknownAction(a) => {
                let mut r = "Unknown action `".to_owned();
                r.append(a.as_str());
                r.append("`");
                r
            },
            CmdError::NoVerbs => "No verbs provided".to_owned(),
        }
    }
}

/// Which action a run of verbs names: the first verb selects it, `info`
/// takes exactly one argument, `add` at least one, and anything else is a
/// fatal error.
pub open spec fn parse_action_spec(verbs: Seq<Seq<char>>) -> Result<ActionModel, CmdErrorModel> {
    if verbs.len() == 0 {
        Err(CmdErrorModel::NoVerbs)
    } else if verbs[0] == "search"@ {
        Ok(ActionModel::Search(verbs.skip(1)))
    } else if verbs[0] == "info"@ {
        if verbs.len() > 2 {
            Err(CmdErrorModel::InfoTooManyArguments)
        } else if verbs.len() < 2 {
            Err(CmdErrorModel::InfoMissingArgument)
        } else {
            Ok(ActionModel::Info(verbs[1]))
        }
    } else if verbs[0] == "add"@ {
        if verbs.len() < 2 {
            Err(CmdErrorModel::AddMissingArgument)
        } else {
            Ok(ActionModel::Add(verbs[1]))
        }
    } else if verbs[0] == "test"@ {
        Ok(ActionModel::Test)
    } else {
        Err(CmdErrorModel::UnknownAction(verbs[0]))
    }
}

/// Resolves the verbs into an action.
pub fn parse_action(verbs: Vec<String>) -> (r: Result<Action, CmdError>)
    ensures
        match r {
            Ok(a) => parse_action_spec(verbs.deep_view()) == Ok::<ActionModel, CmdErrorModel>(a@),
            Err(e) => parse_action_spec(verbs.deep_view()) == Err::<ActionModel, CmdErrorModel>(
                e@,
            ),
        },
{
    let ghost vv = verbs.deep_view();
    if verbs.len() == 0 {
        return Err(CmdError::NoVerbs);
    }
    let mut rest = verbs;
    let v0 = rest.remove(0);
    proof {
        assert(vv[0] == v0@);
        assert(rest.deep_view() =~= vv.skip(1));
        reveal_strlit("search");
        reveal_strlit("info");
        reveal_strlit("add");
        reveal_strlit("test");
    }
    if str_eq(v0.as_str(), "search") {
        Ok(Action::Search(rest))
    } else if str_eq(v0.as_str(), "info") {
        if rest.len() > 1 {
            Err(CmdError::InfoTooManyArguments)
        } else if rest.len() < 1 {
            Err(CmdError::InfoMissingArgument)
        } else {
            let arg = rest.remove(0);
            proof {
                assert(arg@ == vv[1]);
            }
            Ok(Action::Info(arg))
        }
    } else if str_eq(v0.as_str(), "add") {
        if rest.len() < 1 {
            Err(CmdError::AddMissingArgument)
        } else {
            let arg = rest.remove(0);
            proof {
                assert(arg@ == vv[1]);
            }
            Ok(Action::Add(arg))
        }
    } else if str_eq(v0.as_str(), "test") {
        Ok(Action::Test)
    } else {
        Err(CmdError::UnknownAction(v0))
    }
}

/// Per backend, in the order given, the first package whose name is
/// exactly the queried name.
pub open spec fn exact_matches(results: Seq<(String, Vec<Package>)>, arg: Seq<char>) -> Seq<
    (String, Package),
>
    decreases results.len(),
{
    if results.len() == 0 {
        Seq::empty()
    } else {
        let rest = exact_matches(results.drop_first(), arg);
        match find_index(results[0].1@, |p: Package| p.name@ == arg) {
            Some(i) => seq![(results[0].0, results[0].1@[i as int])] + rest,
            None => rest,
        }
    }
}

fn take_first_match(pkgs: Vec<Package>, arg: &String) -> (r: Option<Package>)
    ensures
        match find_index(pkgs@, |p: Package| p.name@ == arg@) {
            Some(i) => r == Some(pkgs@[i as int]),
            None => r is None,
        },
{
    let ghost pred = |p: Package| p.name@ == arg@;
    let mut rest = pkgs;
    let n = rest.len();
    let mut i: usize = 0;
    while i < n
        invariant
            n == pkgs@.len(),
            rest@ == pkgs@,
            i <= n,
            forall|j: int| 0 <= j < i ==> !pred(#[trigger] pkgs@[j]),
        decreases n - i,
    {
        if str_eq(rest[i].name.as_str(), arg.as_str()) {
            proof {
                lemma_find_index_at(pkgs@, pred, i as int);
            }
            return Some(rest.remove(i));
        }
        i = i + 1;
    }
    proof {
        lemma_find_index_props(pkgs@, pred);
        if find_index(pkgs@, pred) is Some {
            assert(pred(pkgs@[find_index(pkgs@, pred).unwrap() as int]));
        }
    }
    None
}

/// The addition candidates for a queried name: for each backend of the
/// merged search result, its first exactly-matching package, the whole
/// list reversed, so the highest-priority candidate lies last and popping
/// selects it.  An empty result means the package was not found anywhere,
/// which is fatal.
pub fn select_candidates(results: Vec<(String, Vec<Package>)>, arg: &String) -> (r: Vec<
    (String, Package),
>)
    ensures
        r@ == exact_matches(results@, arg@).reverse(),
{
    let ghost full = results@;
    let n = results.len();
    let mut rest = results;
    let mut out: Vec<(String, Package)> = Vec::new();
    proof {
        assert(full.skip(n as int) =~= Seq::<(String, Vec<Package>)>::empty());
        assert(exact_matches(full.skip(n as int), arg@).reverse() =~= Seq::<
            (String, Package),
        >::empty());
    }
    let mut mlen: usize = n;
    while mlen > 0
        invariant
            mlen <= n,
            n == full.len(),
            mlen == rest@.len(),
            rest@ == full.take(mlen as int),
            out@ == exact_matches(full.skip(mlen as int), arg@).reverse(),
        decreases mlen,
    {
        let ghost m = mlen as int - 1;
        let pair = rest.pop().unwrap();
        mlen = mlen - 1;
        proof {
            assert(full.take(m + 1).drop_last() =~= full.take(m));
            assert(full.take(m + 1).last() == full[m]);
            assert(pair == full[m]);
        }
        let (bname, pkgs) = pair;
        let ghost pkseq = pkgs@;
        let found = take_first_match(pkgs, arg);
        proof {
            let tail = full.skip(m + 1);
            assert(full.skip(m)[0] == full[m]);
            assert(full.skip(m).drop_first() =~= tail);
            assert(exact_matches(full.skip(m), arg@) == (match find_index(
                pkseq,
                |p: Package| p.name@ == arg@,
            ) {
                Some(i) => seq![(bname, pkseq[i as int])] + exact_matches(tail, arg@),
                None => exact_matches(tail, arg@),
            }));
        }
        match found {
            Some(p) => {
                proof {
                    let em = exact_matches(full.skip(m), arg@);
                    let tailm = exact_matches(full.skip(m + 1), arg@);
                    assert(em == seq![(bname, p)] + tailm);
                    assert(em.reverse() =~= tailm.reverse().push((bname, p)));
                }
                out.push((bname, p));
            },
            None => {},
        }
    }
    proof {
        assert(full.take(0) =~= Seq::<(String, Vec<Package>)>::empty());
        assert(full.skip(0) =~= full);
    }
    out
}

/// Validates the operator's numeric choice against a menu of `len`
/// numbered candidates: entries are numbered from one, and any number out
/// of that range is refused.
pub fn pick_candidate(n: usize, len: usize) -> (r: Option<usize>)
    ensures
        match r {
            Some(i) => 1 <= n <= len && i == n - 1,
            None => n == 0 || n > len,
        },
{
    if n >= 1 && n <= len {
        Some(n - 1)
    } else {
        None
    }
}

/// The order in which hits are presented: each backend's packages in the
/// order reported, backends in merged order, every package tagged with its
/// backend's name.
pub open spec fn tagged_flatten(s: Seq<(String, Vec<Package>)>) -> Seq<(String, Package)>
    decreases s.len(),
{
    if s.len() == 0 {
        Seq::empty()
    } else {
        s[0].1@.map_values(|p: Package| (s[0].0, p)) + tagged_flatten(s.drop_first())
    }
}

/// Flattens a merged result list into the presented order.
pub fn flatten_results(results: Vec<(String, Vec<Package>)>) -> (r: Vec<(String, Package)>)
    ensures
        r@ == tagged_flatten(results@),
{
    let ghost full = results@;
    let mut rest = results;
    let mut out: Vec<(String, Package)> = Vec::new();
    while rest.len() > 0
        invariant
            tagged_flatten(full) == out@ + tagged_flatten(rest@),
        decreases rest.len(),
    {
        let ghost r0 = rest@;
        let pair = rest.remove(0);
        proof {
            assert(rest@ =~= r0.drop_first());
        }
        let (bname, pkgs) = pair;
        let ghost pk0 = pkgs@;
        let ghost tag = |p: Package| (bname, p);
        let mut ps = pkgs;
        let ghost out_mid = out@;
        while ps.len() > 0
            invariant
                pk0 == out@.skip(out_mid.len() as int).map_values(
                    |q: (String, Package)| q.1,
                ) + ps@,
                out@.take(out_mid.len() as int) == out_mid,
                out@.len() >= out_mid.len(),
                out@.skip(out_mid.len() as int).map_values(|q: (String, Package)| q.1).len()
                    + ps@.len() == pk0.len(),
                forall|i: int|
                    out_mid.len() <= i < out@.len() ==> (#[trigger] out@[i]) == tag(
                        out@[i].1,
                    ),
            decreases ps.len(),
        {
            let ghost p0 = ps@;
            let p = ps.remove(0);
            proof {
                assert(ps@ =~= p0.drop_first());
            }
            let tagged = (bname.clone(), p);
            proof {
                assert(tagged == tag(p));
                assert((out@.push(tagged)).take(out_mid.len() as int) =~= out@.take(
                    out_mid.len() as int,
                ));
                assert((out@.push(tagged)).skip(out_mid.len() as int) =~= out@.skip(
                    out_mid.len() as int,
                ).push(tagged));
                assert((out@.skip(out_mid.len() as int).push(tagged)).map_values(
                    |q: (String, Package)| q.1,
                ) =~= out@.skip(out_mid.len() as int).map_values(
                    |q: (String, Package)| q.1,
                ).push(p));
                assert(out@.skip(out_mid.len() as int).map_values(|q: (String, Package)| q.1)
                    + (seq![p] + ps@) =~= out@.skip(out_mid.len() as int).map_values(
                    |q: (String, Package)| q.1,
                ).push(p) + ps@);
            }
            out.push(tagged);
        }
        proof {
            let added = out@.skip(out_mid.len() as int);
            assert(added.map_values(|q: (String, Package)| q.1) + ps@ =~= added.map_values(
                |q: (String, Package)| q.1,
            ));
            assert(added.map_values(|q: (String, Package)| q.1) == pk0);
            assert forall|i: int| 0 <= i < added.len() implies added[i] == pk0.map_values(tag)[i]
                by {
                assert(added[i] == out@[i + out_mid.len()]);
                assert(out@[i + out_mid.len()] == tag(out@[i + out_mid.len()].1));
                assert(added.map_values(|q: (String, Package)| q.1)[i] == added[i].1);
                assert(pk0[i] == added[i].1);
                assert(pk0.map_values(tag)[i] == tag(pk0[i]));
            }
            assert(added =~= pk0.map_values(tag));
            assert(pk0.map_values(tag) =~= r0[0].1@.map_values(|p: Package| (r0[0].0, p)));
            assert(out@ =~= out_mid + added);
            assert(tagged_flatten(r0) == r0[0].1@.map_values(|p: Package| (r0[0].0, p))
                + tagged_flatten(rest@));
            assert(out_mid + (pk0.map_values(tag) + tagged_flatten(rest@)) =~= (out_mid
                + pk0.map_values(tag)) + tagged_flatten(rest@));
        }
    }
    proof {
        assert(tagged_flatten(rest@) =~= Seq::<(String, Package)>::empty());
        assert(out@ + Seq::<(String, Package)>::empty() =~= out@);
    }
    out
}

} // verus!
