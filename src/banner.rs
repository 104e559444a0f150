use vstd::prelude::*;

verus! {

/// The width of the banner's longer line, `press 'q' or 'escape' to exit`.
pub const BANNER_WIDTH: usize = 29;

/// The line that names the watched file: `watching '<path>'`.
pub fn watching_line(path: &str) -> (r: String)
    ensures
        r@ == "watching '"@ + path@ + "'"@,
{
    let mut r = String::from_str("watching '");
    r.append(path);
    r.append("'");
    r
}

/// The width of the rule under the header: the wider of the banner and the
/// line `watching` (its length in bytes).
pub fn rule_width(watching_len: usize) -> (r: usize)
    ensures
        r == if watching_len > BANNER_WIDTH {
            watching_len
        } else {
            BANNER_WIDTH
        },
{
    if watching_len > BANNER_WIDTH {
        watching_len
    } else {
        BANNER_WIDTH
    }
}

} // verus!
