use vstd::prelude::*;

verus! {

/// The direction of a requested brightness change.
#[derive(Copy, Clone, PartialEq, Eq, Structural, Debug)]
pub enum Mode {
    Up,
    Down,
}

impl Mode {
    /// Parses the mode argument: exactly `"up"` or `"down"`, case-sensitive;
    /// every other value is rejected.
    pub fn from_arg(arg: &str) -> (r: Option<Mode>)
        ensures
            r == Some(Mode::Up) <==> arg@ == seq!['u', 'p'],
            r == Some(Mode::Down) <==> arg@ == seq!['d', 'o', 'w', 'n'],
            r is None <==> (arg@ != seq!['u', 'p'] && arg@ != seq!['d', 'o', 'w', 'n']),
    {
        let len = arg.unicode_len();
        if len == 2 && arg.get_char(0) == 'u' && arg.get_char(1) == 'p' {
            proof {
                assert(arg@ =~= seq!['u', 'p']);
            }
            Some(Mode::Up)
        } else if len == 4 && arg.get_char(0) == 'd' && arg.get_char(1) == 'o' && arg.get_char(2)
            == 'w' && arg.get_char(3) == 'n' {
            proof {
                assert(arg@ =~= seq!['d', 'o', 'w', 'n']);
            }
            Some(Mode::Down)
        } else {
            proof {
                if arg@ == seq!['u', 'p'] {
                    assert(arg@.len() == 2);
                    assert(arg@[0] == 'u' && arg@[1] == 'p');
                }
                if arg@ == seq!['d', 'o', 'w', 'n'] {
                    assert(arg@.len() == 4);
                    assert(arg@[0] == 'd' && arg@[1] == 'o' && arg@[2] == 'w' && arg@[3] == 'n');
                }
            }
            None
        }
    }
}

} // verus!
