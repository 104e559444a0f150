use vstd::prelude::*;

verus! {

/// A key press, reduced to what the viewer tells apart.
#[derive(Clone, Copy, Debug, PartialEq, Eq, Structural)]
pub enum Key {
    Char(char),
    Esc,
    Other,
}

/// Whether a key press ends the viewer: `q` and Escape do, every other key is ignored.
pub open spec fn is_quit(k: Key) -> bool {
    k == Key::Char('q') || k == Key::Esc
}

/// Whether the viewer stops on this key.
pub fn should_quit(k: Key) -> (r: bool)
    ensures
        r == is_quit(k),
{
    match k {
        Key::Char(c) => c == 'q',
        Key::Esc => true,
        Key::Other => false,
    }
}

} // verus!
