use vstd::prelude::*;

verus! {

/// The step that a key asks for: `w`, `s`, `a` and `d` move up, down, left
/// and right, `q` quits (`None`), and any other key, or an event that is no
/// key (`None` as argument), stays in place.
pub fn direction_for_key(key: Option<char>) -> (r: Option<(isize, isize)>)
    ensures
        key == Some('w') ==> r == Some((0isize, -1isize)),
        key == Some('s') ==> r == Some((0isize, 1isize)),
        key == Some('a') ==> r == Some((-1isize, 0isize)),
        key == Some('d') ==> r == Some((1isize, 0isize)),
        key == Some('q') ==> r is None,
        !(key matches Some(c) && (c == 'w' || c == 's' || c == 'a' || c == 'd' || c == 'q'))
            ==> r == Some((0isize, 0isize)),
{
    match key {
        Some('w') => Some((0, -1)),
        Some('s') => Some((0, 1)),
        Some('a') => Some((-1, 0)),
        Some('d') => Some((1, 0)),
        Some('q') => None,
        _ => Some((0, 0)),
    }
}

} // verus!
