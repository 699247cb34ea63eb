//! Tab completion: reading the words of the command line being completed.

use vstd::prelude::*;

use crate::strs::{chars_of, contains, contains_exec, owned, starts_with, starts_with_exec, str_eq, string_of};
use crate::text::{split_on, strings_view};

verus! {

/// The flag part of a word: what comes before its first `=`.
pub open spec fn flag_name(arg: Seq<char>) -> Seq<char> {
    split_on(arg, seq!['='])[0]
}

/// Flags that take a value.
pub open spec fn spec_takes_value(arg: Seq<char>) -> bool {
    let f = flag_name(arg);
    f == "--dir"@ || f == "--under"@ || f == "--minutes"@ || f == "-m"@ || f == "--cards"@ || f == "-n"@
        || f == "--new"@
}

pub fn takes_value(arg: &str) -> (r: bool)
    ensures
        r == spec_takes_value(arg@),
{
    let v = chars_of(arg);
    let eq: Vec<char> = vec!['='];
    assert(eq@ == seq!['=']);
    let parts = crate::text::split_on_exec(v.as_slice(), eq.as_slice());
    assert(parts@.map_values(|w: Vec<char>| w@).len() > 0);
    assert(parts@.map_values(|w: Vec<char>| w@)[0] == parts@[0]@);
    let f = string_of(parts[0].as_slice());
    let fs = f.as_str();
    str_eq(fs, "--dir") || str_eq(fs, "--under") || str_eq(fs, "--minutes") || str_eq(fs, "-m")
        || str_eq(fs, "--cards") || str_eq(fs, "-n") || str_eq(fs, "--new")
}

/// Index of the first word equal to `w`.
pub open spec fn position_of(args: Seq<Seq<char>>, w: Seq<char>) -> Option<int>
    decreases args.len(),
{
    if args.len() == 0 {
        None
    } else {
        match position_of(args.drop_last(), w) {
            Some(i) => Some(i),
            None => if args.last() == w {
                Some(args.len() - 1)
            } else {
                None
            },
        }
    }
}

/// The positional words among some words: flags and the values of flags
/// that take one are left out, as is `--`.
pub open spec fn positionals(ws: Seq<Seq<char>>) -> (Seq<Seq<char>>, bool)
    decreases ws.len(),
{
    if ws.len() == 0 {
        (Seq::empty(), false)
    } else {
        let (out, skip) = positionals(ws.drop_last());
        let a = ws.last();
        if skip {
            (out, false)
        } else if a == "--"@ {
            (out, false)
        } else if spec_takes_value(a) {
            (out, !contains(a, "="@))
        } else if starts_with(a, "-"@) {
            (out, false)
        } else {
            (out.push(a), false)
        }
    }
}

/// Non-flag words after `command` on the line being completed.
pub open spec fn spec_positionals_after(args: Seq<Seq<char>>, command: Seq<char>) -> Seq<Seq<char>> {
    match position_of(args, command) {
        None => Seq::empty(),
        Some(start) => positionals(args.skip(start + 1)).0,
    }
}

proof fn lemma_position_of(args: Seq<Seq<char>>, w: Seq<char>)
    ensures
        position_of(args, w) matches Some(i) ==> 0 <= i < args.len() && args[i] == w && forall|j: int|
            0 <= j < i ==> args[j] != w,
        position_of(args, w) is None ==> forall|j: int| 0 <= j < args.len() ==> args[j] != w,
    decreases args.len(),
{
    if args.len() > 0 {
        lemma_position_of(args.drop_last(), w);
        assert(forall|j: int| 0 <= j < args.len() - 1 ==> args.drop_last()[j] == args[j]);
    }
}

/// Non-flag words after `command` among the words of a command line.
pub fn positionals_after(args: &Vec<String>, command: &str) -> (r: Vec<String>)
    ensures
        strings_view(r@) == spec_positionals_after(strings_view(args@), command@),
{
    let ghost av = strings_view(args@);
    proof {
        lemma_position_of(av, command@);
    }
    let mut start: usize = 0;
    while start < args.len() && !str_eq(args[start].as_str(), command)
        invariant
            start <= args@.len(),
            av == strings_view(args@),
            forall|j: int| 0 <= j < start ==> av[j] != command@,
        decreases args@.len() - start,
    {
        start = start + 1;
    }
    if start == args.len() {
        proof {
            if position_of(av, command@) is Some {
                let i = position_of(av, command@)->0;
                assert(av[i] == command@);
            }
        }
        return Vec::new();
    }
    proof {
        assert(av[start as int] == command@);
        if position_of(av, command@) is None {
            assert(av[start as int] != command@);
        }
        let i = position_of(av, command@)->0;
        if i < start {
            assert(av[i] != command@);
        }
    }
    let ghost rest = av.skip(start + 1);
    let mut out: Vec<String> = Vec::new();
    let mut skip = false;
    let mut k: usize = start + 1;
    assert(rest.take(0) =~= Seq::<Seq<char>>::empty());
    let dash: Vec<char> = vec!['-'];
    let eqv: Vec<char> = vec!['='];
    proof {
        reveal_strlit("-");
        reveal_strlit("=");
        assert(dash@ == "-"@);
        assert(eqv@ == "="@);
    }
    while k < args.len()
        invariant
            start < k <= args@.len(),
            av == strings_view(args@),
            rest == av.skip(start + 1),
            dash@ == "-"@,
            eqv@ == "="@,
            (strings_view(out@), skip) == positionals(rest.take(k - start - 1)),
        decreases args@.len() - k,
    {
        let a = args[k].as_str();
        proof {
            assert(rest.take(k - start).drop_last() =~= rest.take(k - start - 1));
            assert(rest.take(k - start).last() == a@);
        }
        let av2 = chars_of(a);
        if skip {
            skip = false;
        } else if str_eq(a, "--") {
        } else if takes_value(a) {
            skip = !contains_exec(av2.as_slice(), eqv.as_slice());
        } else if starts_with_exec(av2.as_slice(), dash.as_slice()) {
        } else {
            let ghost b = strings_view(out@);
            out.push(owned(a));
            assert(strings_view(out@) =~= b.push(a@));
        }
        k = k + 1;
    }
    assert(rest.take(k - start - 1) =~= rest);
    out
}

/// The first non-flag word after `command`.
pub fn first_positional_after(args: &Vec<String>, command: &str) -> (r: Option<String>)
    ensures
        match r {
            Some(s) => spec_positionals_after(strings_view(args@), command@).len() > 0 && s@
                == spec_positionals_after(strings_view(args@), command@)[0],
            None => spec_positionals_after(strings_view(args@), command@).len() == 0,
        },
{
    let ps = positionals_after(args, command);
    if ps.len() > 0 {
        Some(owned(ps[0].as_str()))
    } else {
        None
    }
}

/// The value of `--dir` on a command line: the word after `--dir`, or what
/// follows `--dir=`.
pub open spec fn spec_dir_flag(args: Seq<Seq<char>>, from: int) -> Option<Seq<char>>
    decreases args.len() - from,
{
    if from < 0 || from >= args.len() {
        None
    } else if args[from] == "--dir"@ {
        if from + 1 < args.len() {
            Some(args[from + 1])
        } else {
            None
        }
    } else if starts_with(args[from], "--dir="@) {
        Some(args[from].skip(6))
    } else {
        spec_dir_flag(args, from + 1)
    }
}

pub fn dir_flag(args: &Vec<String>) -> (r: Option<String>)
    ensures
        match spec_dir_flag(strings_view(args@), 0) {
            Some(d) => r matches Some(s) && s@ == d,
            None => r is None,
        },
{
    let ghost av = strings_view(args@);
    let pre: Vec<char> = vec!['-', '-', 'd', 'i', 'r', '='];
    proof {
        reveal_strlit("--dir=");
        assert(pre@ == "--dir="@);
    }
    let mut i: usize = 0;
    while i < args.len()
        invariant
            i <= args@.len(),
            av == strings_view(args@),
            pre@ == "--dir="@,
            pre@.len() == 6,
            spec_dir_flag(av, 0) == spec_dir_flag(av, i as int),
        decreases args@.len() - i,
    {
        let a = args[i].as_str();
        assert(av[i as int] == a@);
        if str_eq(a, "--dir") {
            if i + 1 < args.len() {
                assert(av[i + 1] == args@[i + 1]@);
                return Some(owned(args[i + 1].as_str()));
            }
            return None;
        }
        let v = chars_of(a);
        if starts_with_exec(v.as_slice(), pre.as_slice()) {
            assert(pre@.len() == 6);
            let rest = crate::strs::slice_chars(v.as_slice(), 6, v.len());
            assert(rest@ =~= a@.skip(6));
            return Some(string_of(rest.as_slice()));
        }
        i = i + 1;
    }
    None
}

/// Which decks completion looks at: those named after `review`, or all.
pub fn selected_decks(args: &Vec<String>, all: Vec<String>) -> (r: Vec<String>)
    ensures
        spec_positionals_after(strings_view(args@), "review"@).len() == 0 ==> r@ == all@,
        spec_positionals_after(strings_view(args@), "review"@).len() > 0 ==> strings_view(r@)
            == spec_positionals_after(strings_view(args@), "review"@),
{
    let named = positionals_after(args, "review");
    if named.len() == 0 {
        all
    } else {
        named
    }
}

/// The candidates that begin with what has been typed so far.
pub fn with_prefix(names: &Vec<String>, prefix: &str) -> (r: Vec<String>)
    ensures
        strings_view(r@) == strings_view(names@).filter(|n: Seq<char>| starts_with(n, prefix@)),
{
    let ghost nv = strings_view(names@);
    let pv = chars_of(prefix);
    let mut out: Vec<String> = Vec::new();
    let mut i: usize = 0;
    while i < names.len()
        invariant
            i <= names@.len(),
            nv == strings_view(names@),
            pv@ == prefix@,
            strings_view(out@) == nv.take(i as int).filter(|n: Seq<char>| starts_with(n, prefix@)),
        decreases names@.len() - i,
    {
        proof {
            assert(nv.take(i + 1).drop_last() =~= nv.take(i as int));
            assert(nv.take(i + 1).last() == names@[i as int]@);
            nv.take(i as int).lemma_filter_push(names@[i as int]@, |n: Seq<char>| starts_with(n, prefix@));
            assert(nv.take(i + 1) =~= nv.take(i as int).push(names@[i as int]@));
        }
        let v = chars_of(names[i].as_str());
        if starts_with_exec(v.as_slice(), pv.as_slice()) {
            let ghost b = strings_view(out@);
            out.push(owned(names[i].as_str()));
            assert(strings_view(out@) =~= b.push(names@[i as int]@));
        }
        i = i + 1;
    }
    assert(nv.take(i as int) =~= nv);
    out
}

} // verus!
