//! Words on the command line.

use vstd::prelude::*;
use crate::text::same_text;

verus! {

/// The word turns a gate on.
pub open spec fn means_on(s: Seq<char>) -> bool {
    s == "on"@ || s == "1"@ || s == "true"@
}

/// The word turns a gate off.
pub open spec fn means_off(s: Seq<char>) -> bool {
    s == "off"@ || s == "0"@ || s == "false"@
}

proof fn on_and_off_differ(s: Seq<char>)
    ensures
        !(means_on(s) && means_off(s)),
{
    reveal_strlit("on");
    reveal_strlit("1");
    reveal_strlit("true");
    reveal_strlit("off");
    reveal_strlit("0");
    reveal_strlit("false");
    assert("1"@[0] == '1' && "0"@[0] == '0');
    assert("on"@.len() == 2 && "1"@.len() == 1 && "true"@.len() == 4);
    assert("off"@.len() == 3 && "0"@.len() == 1 && "false"@.len() == 5);
}

/// Reads a gate's state: on, 1 or true; off, 0 or false. Any other word is
/// refused, and named in the refusal.
pub fn parse_on_off(s: &str) -> (r: Result<bool, String>)
    ensures
        means_on(s@) ==> r == Ok::<bool, String>(true),
        means_off(s@) ==> r == Ok::<bool, String>(false),
        !means_on(s@) && !means_off(s@) ==> r is Err,
        r matches Err(e) ==> e@ == "expected on|off, got '"@ + s@ + "'"@,
{
    proof {
        on_and_off_differ(s@);
    }
    if same_text(s, "on") || same_text(s, "1") || same_text(s, "true") {
        Ok(true)
    } else if same_text(s, "off") || same_text(s, "0") || same_text(s, "false") {
        Ok(false)
    } else {
        let mut e = String::new();
        e.append("expected on|off, got '");
        e.append(s);
        e.append("'");
        assert(e@ =~= "expected on|off, got '"@ + s@ + "'"@);
        Err(e)
    }
}

/// The words for on and for off, letter by letter.
pub proof fn words_for_on_and_off(s: Seq<char>)
    ensures
        means_on(s) <==> s == seq!['o', 'n'] || s == seq!['1'] || s == seq!['t', 'r', 'u', 'e'],
        means_off(s) <==> s == seq!['o', 'f', 'f'] || s == seq!['0'] || s == seq![
            'f',
            'a',
            'l',
            's',
            'e',
        ],
{
    reveal_strlit("on");
    reveal_strlit("1");
    reveal_strlit("true");
    reveal_strlit("off");
    reveal_strlit("0");
    reveal_strlit("false");
    assert("on"@ =~= seq!['o', 'n']);
    assert("1"@ =~= seq!['1']);
    assert("true"@ =~= seq!['t', 'r', 'u', 'e']);
    assert("off"@ =~= seq!['o', 'f', 'f']);
    assert("0"@ =~= seq!['0']);
    assert("false"@ =~= seq!['f', 'a', 'l', 's', 'e']);
}

} // verus!
