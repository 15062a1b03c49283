use vstd::prelude::*;

use crate::text::{str_eq, string_views};

verus! {

broadcast use vstd::string::group_string_axioms;

pub open spec fn lits(v: Seq<&str>) -> Seq<Seq<char>> {
    Seq::new(v.len(), |i: int| v[i]@)
}

/// The arguments handed to `qrtool`: `c` encodes to an optimised PNG, `t`
/// encodes for the terminal, and anything else is passed on as it is,
/// followed by the remaining arguments.
pub open spec fn spec_qrtool_args(args: Seq<Seq<char>>) -> Seq<Seq<char>> {
    if args.len() == 0 {
        Seq::empty()
    } else if args[0] == "c"@ {
        seq!["encode"@, "-m"@, "1"@, "--optimize-png"@, "4"@] + args.drop_first()
    } else if args[0] == "t"@ {
        seq!["encode"@, "-m"@, "1"@, "-t"@, "terminal"@] + args.drop_first()
    } else {
        args
    }
}

fn push_all(out: &mut Vec<String>, items: &Vec<String>, from: usize)
    requires
        from <= items@.len(),
    ensures
        string_views(final(out)@) == string_views(old(out)@) + string_views(
            items@,
        ).skip(from as int),
{
    let mut i: usize = from;
    while i < items.len()
        invariant
            from <= i <= items@.len(),
            string_views(out@) == string_views(old(out)@) + string_views(
                items@,
            ).subrange(from as int, i as int),
        decreases items@.len() - i,
    {
        let ghost before = out@;
        out.push(items[i].clone());
        assert(string_views(out@) =~= string_views(before).push(items@[i as int]@));
        assert(string_views(out@) =~= string_views(old(out)@) + string_views(
            items@,
        ).subrange(from as int, i as int + 1));
        i = i + 1;
    }
    assert(string_views(items@).subrange(from as int, items@.len() as int)
        =~= string_views(items@).skip(from as int));
}

fn words(ws: &[&str]) -> (res: Vec<String>)
    ensures
        string_views(res@) == lits(ws@),
{
    let mut out: Vec<String> = Vec::new();
    let mut i: usize = 0;
    while i < ws.len()
        invariant
            i <= ws@.len(),
            string_views(out@) == lits(ws@).take(i as int),
        decreases ws@.len() - i,
    {
        let ghost before = out@;
        out.push(ws[i].to_owned());
        assert(string_views(out@) =~= string_views(before).push(ws@[i as int]@));
        assert(string_views(out@) =~= lits(ws@).take(i as int + 1));
        i = i + 1;
    }
    assert(lits(ws@).take(ws@.len() as int) =~= lits(ws@));
    out
}

/// Works out the `qrtool` command line from this tool's arguments.
pub fn qrtool_args(args: &Vec<String>) -> (res: Vec<String>)
    ensures
        string_views(res@) == spec_qrtool_args(string_views(args@)),
{
    let mut out: Vec<String> = Vec::new();
    if args.len() == 0 {
        assert(string_views(out@) =~= Seq::<Seq<char>>::empty());
        return out;
    }
    assert(string_views(args@)[0] == args@[0]@);
    if str_eq(args[0].as_str(), "c") {
        let ws: [&str; 5] = ["encode", "-m", "1", "--optimize-png", "4"];
        out = words(ws.as_slice());
        assert(lits(ws@) =~= seq!["encode"@, "-m"@, "1"@, "--optimize-png"@, "4"@]);
        push_all(&mut out, args, 1);
    } else if str_eq(args[0].as_str(), "t") {
        let ws: [&str; 5] = ["encode", "-m", "1", "-t", "terminal"];
        out = words(ws.as_slice());
        assert(lits(ws@) =~= seq!["encode"@, "-m"@, "1"@, "-t"@, "terminal"@]);
        push_all(&mut out, args, 1);
    } else {
        push_all(&mut out, args, 0);
        assert(string_views(args@).skip(0) =~= string_views(args@));
    }
    assert(string_views(args@).skip(1) =~= string_views(args@).drop_first());
    out
}

} // verus!
