//! Text of an error together with the errors that caused it.
use vstd::prelude::*;

verus! {

/// An error shown together with its chain of sources.
pub struct Report<T>(pub T);

/// The text of an error chain: the first message, then each cause on a line
/// of its own after `  : `.
pub open spec fn chain_text(messages: Seq<Seq<char>>) -> Seq<char>
    decreases messages.len(),
{
    if messages.len() == 0 {
        seq![]
    } else if messages.len() == 1 {
        messages[0]
    } else {
        chain_text(messages.drop_last()) + "\n  : "@ + messages.last()
    }
}

/// Writes the messages of an error and of its sources, outermost first.
pub fn error_chain_text(messages: &Vec<String>) -> (r: String)
    ensures
        r@ == chain_text(messages@.map_values(|m: String| m@)),
{
    let ghost ms = messages@.map_values(|m: String| m@);
    let mut out = String::new();
    let mut i: usize = 0;
    while i < messages.len()
        invariant
            i <= messages@.len(),
            ms == messages@.map_values(|m: String| m@),
            out@ == chain_text(ms.take(i as int)),
        decreases messages@.len() - i,
    {
        if i > 0 {
            out.append("\n  : ");
        }
        out.append(messages[i].as_str());
        assert(ms.take(i + 1).drop_last() =~= ms.take(i as int));
        i += 1;
    }
    assert(ms.take(messages@.len() as int) =~= ms);
    out
}

} // verus!
