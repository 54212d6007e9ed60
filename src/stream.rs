//! What is written where: the destination of fetched data, and the lines
//! that log messages produce.
use vstd::prelude::*;
use vstd::string::*;

verus! {

/// Where fetched data is written: standard output or a file.
pub enum Out {
    STD,
    FILE,
}

/// The text that logging `msg` writes: the message and a newline in verbose
/// mode, nothing otherwise.
pub fn log(msg: &str, verbose: bool) -> (r: Option<String>)
    ensures
        verbose ==> (r matches Some(line) && line@ == msg@ + seq!['\n']),
        !verbose ==> r is None,
{
    if verbose {
        let mut line = String::from_str(msg);
        line.append("\n");
        proof {
            reveal_strlit("\n");
        }
        Some(line)
    } else {
        None
    }
}

} // verus!
