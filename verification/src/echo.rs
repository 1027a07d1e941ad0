//! The `echo` command.

use crate::text::{join, push_joined, views};
use vstd::prelude::*;

verus! {

/// `echo(a, b, ...)`: the arguments joined with `", "` inside `echo(` and `)`.
pub open spec fn echo_text(args: Seq<Seq<char>>) -> Seq<char> {
    seq!['e', 'c', 'h', 'o', '('] + join(args, seq![',', ' ']) + seq![')']
}

/// Echoes the arguments back: `echo(a, b, ...)`.
pub fn echo(args: &[String]) -> (reply: String)
    ensures
        reply@ == echo_text(views(args@)),
{
    proof {
        reveal_strlit("echo(");
        reveal_strlit(", ");
        reveal_strlit(")");
        assert("echo("@ =~= seq!['e', 'c', 'h', 'o', '(']);
        assert(", "@ =~= seq![',', ' ']);
        assert(")"@ =~= seq![')']);
    }
    let mut reply = String::from_str("echo(");
    push_joined(&mut reply, args, ", ");
    reply.append(")");
    proof {
        assert(reply@ =~= echo_text(views(args@)));
    }
    reply
}

/// What `echo` replies, argument by argument: `echo()` for no arguments,
/// `echo(a)` for one, and each further argument `b` (empty ones included)
/// adds `", "` and `b` in front of the closing parenthesis. Every argument
/// appears, in order, with exactly one separator between neighbours.
pub proof fn lemma_echo_lists_every_argument(args: Seq<Seq<char>>, b: Seq<char>)
    ensures
        echo_text(seq![]) == seq!['e', 'c', 'h', 'o', '(', ')'],
        echo_text(seq![b]) == seq!['e', 'c', 'h', 'o', '('] + b + seq![')'],
        args.len() >= 1 ==> echo_text(args.push(b)) == echo_text(args).drop_last() + seq![',', ' ']
            + b + seq![')'],
{
    assert(join(seq![], seq![',', ' ']) == Seq::<char>::empty());
    assert(echo_text(seq![]) =~= seq!['e', 'c', 'h', 'o', '(', ')']);
    assert(join(seq![b], seq![',', ' ']) == b);
    assert(echo_text(seq![b]) =~= seq!['e', 'c', 'h', 'o', '('] + b + seq![')']);
    if args.len() >= 1 {
        let longer = args.push(b);
        assert(longer.drop_last() =~= args);
        assert(join(longer, seq![',', ' ']) == join(args, seq![',', ' ']) + seq![',', ' '] + b);
        let e = echo_text(args);
        assert(e.drop_last() =~= seq!['e', 'c', 'h', 'o', '('] + join(args, seq![',', ' ']));
        assert(echo_text(longer) =~= e.drop_last() + seq![',', ' '] + b + seq![')']);
    }
}

} // verus!
