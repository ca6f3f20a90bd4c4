//! The script by which a short message is shown to the user.

use crate::text::to_chars;
use vstd::prelude::*;
use vstd::string::*;

verus! {

/// `s` with a backslash before each double quote.
pub open spec fn escaped(s: Seq<char>) -> Seq<char>
    decreases s.len(),
{
    if s.len() == 0 {
        Seq::empty()
    } else if s.last() == '"' {
        escaped(s.drop_last()) + seq!['\\', '"']
    } else {
        escaped(s.drop_last()).push(s.last())
    }
}

/// The script that shows `message` under the title of this tool.
pub open spec fn script_of(message: Seq<char>) -> Seq<char> {
    "display notification \""@ + escaped(message) + "\" with title \"Godspeed CLI\""@
}

/// The script that shows `message`: the message stands in it between
/// double quotes, with its own double quotes escaped.
pub fn notification_script(message: &str) -> (r: String)
    ensures
        r@ == script_of(message@),
{
    proof {
        reveal_strlit("\\\"");
    }
    assert("\\\""@ =~= seq!['\\', '"']);
    let chars = to_chars(message);
    let ghost head = "display notification \""@;
    let mut r = "display notification \"".to_owned();
    let mut i: usize = 0;
    assert(r@ =~= head + escaped(chars@.take(0)));
    while i < chars.len()
        invariant
            chars@ == message@,
            i <= chars@.len(),
            "\\\""@ == seq!['\\', '"'],
            r@ == head + escaped(chars@.take(i as int)),
        decreases chars@.len() - i,
    {
        let ghost before = escaped(chars@.take(i as int));
        proof {
            assert(chars@.take(i + 1).drop_last() =~= chars@.take(i as int));
            assert(chars@.take(i + 1).last() == chars@[i as int]);
        }
        if chars[i] == '"' {
            r.append("\\\"");
            assert(r@ =~= head + (before + seq!['\\', '"']));
        } else {
            let one = message.substring_char(i, i + 1);
            assert(one@ =~= seq![chars@[i as int]]);
            r.append(one);
            assert(r@ =~= head + before.push(chars@[i as int]));
        }
        i += 1;
    }
    assert(chars@.take(i as int) =~= chars@);
    r.append("\" with title \"Godspeed CLI\"");
    r
}

} // verus!
