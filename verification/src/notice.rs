use vstd::prelude::*;

verus! {

/// The licence notice printed after the command line help.
pub open spec fn disclaimer_text() -> Seq<char> {
    "Copyright (c) 2026, Ludovico Pestarino\nThis tool is a work in progress and may not be fully functional or accurate.\nUse at your own risk.\nThe author of this tool does not take any responsibility for the accuracy or completeness of the data provided by this tool."@
}

/// Returns the licence notice; it never fails.
pub fn disclaimer() -> (r: Result<String, ()>)
    ensures
        r matches Ok(s) && s@ == disclaimer_text(),
{
    let text = "Copyright (c) 2026, Ludovico Pestarino\nThis tool is a work in progress and may not be fully functional or accurate.\nUse at your own risk.\nThe author of this tool does not take any responsibility for the accuracy or completeness of the data provided by this tool.";
    Ok(String::from_str(text))
}

} // verus!
