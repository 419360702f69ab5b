//! Files the operating system asked the application to open before the
//! interface was ready to receive them.

use vstd::prelude::*;

verus! {

/// Paths waiting for the interface, oldest first. Drained once the
/// interface is up, so a cold launch straight into a document never loses
/// it.
#[derive(Debug)]
pub struct PendingOpens {
    paths: Vec<String>,
}

impl PendingOpens {
    pub closed spec fn spec_paths(&self) -> Seq<String> {
        self.paths@
    }

    pub fn new() -> (r: Self)
        ensures
            r.spec_paths().len() == 0,
    {
        PendingOpens { paths: Vec::new() }
    }

    /// Queues `paths` behind those already waiting.
    pub fn extend(&mut self, paths: Vec<String>)
        ensures
            final(self).spec_paths() == old(self).spec_paths() + paths@,
    {
        let mut paths = paths;
        self.paths.append(&mut paths);
    }

    /// Everything waiting, in arrival order; nothing waits afterwards.
    pub fn take(&mut self) -> (r: Vec<String>)
        ensures
            r@ == old(self).spec_paths(),
            final(self).spec_paths().len() == 0,
    {
        let mut out: Vec<String> = Vec::new();
        std::mem::swap(&mut out, &mut self.paths);
        out
    }
}

impl Default for PendingOpens {
    fn default() -> (r: Self)
        ensures
            r.spec_paths().len() == 0,
    {
        PendingOpens::new()
    }
}

/// A command-line argument that may name a file: not empty, and not a flag.
pub open spec fn names_file(arg: Seq<char>) -> bool {
    arg.len() > 0 && arg[0] != '-'
}

/// The arguments, in order, that may name a file.
pub open spec fn file_candidates(args: Seq<Seq<char>>) -> Seq<Seq<char>>
    decreases args.len(),
{
    if args.len() == 0 {
        Seq::empty()
    } else if names_file(args.last()) {
        file_candidates(args.drop_last()).push(args.last())
    } else {
        file_candidates(args.drop_last())
    }
}

pub open spec fn arg_views(args: Seq<String>) -> Seq<Seq<char>> {
    args.map_values(|a: String| a@)
}

/// The arguments of a launch that may name files to open: the program's own
/// name, which comes first, is passed over, and so are empty arguments and
/// flags.
pub fn launch_file_candidates(args: Vec<String>) -> (r: Vec<String>)
    ensures
        arg_views(r@) == (if args@.len() == 0 {
            Seq::<Seq<char>>::empty()
        } else {
            file_candidates(arg_views(args@).skip(1))
        }),
{
    let mut out: Vec<String> = Vec::new();
    if args.len() == 0 {
        proof {
            assert(arg_views(out@) =~= Seq::<Seq<char>>::empty());
        }
        return out;
    }
    let ghost rest = arg_views(args@).skip(1);
    let mut k: usize = 1;
    proof {
        assert(rest.take(0) =~= Seq::<Seq<char>>::empty());
        assert(arg_views(out@) =~= Seq::<Seq<char>>::empty());
    }
    while k < args.len()
        invariant
            1 <= k <= args@.len(),
            rest == arg_views(args@).skip(1),
            arg_views(out@) == file_candidates(rest.take(k - 1)),
        decreases args@.len() - k,
    {
        let ghost before = out@;
        proof {
            assert(rest.take(k as int).drop_last() =~= rest.take(k - 1));
            assert(rest.take(k as int).last() == args@[k as int]@);
        }
        let a = args[k].as_str();
        let flagged = match crate::chars::char_vec(a).first() {
            Some(c) => *c == '-',
            None => true,
        };
        if !flagged {
            out.push(args[k].clone());
            proof {
                assert(arg_views(out@) =~= arg_views(before).push(args@[k as int]@));
            }
        }
        k += 1;
    }
    proof {
        assert(rest.take(k - 1) =~= rest);
    }
    out
}

} // verus!
