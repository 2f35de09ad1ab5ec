use vstd::prelude::*;

use crate::text::same_text;

verus! {

/// The dialect switches of the language. Each is off unless the caller or an
/// inline pragma turns it on.
#[derive(Clone, Copy, Debug, PartialEq, Eq, Structural)]
pub struct Config {
    /// Free-form identifiers are variables, besides `x<digits>`.
    pub allow_named_vars: bool,
    /// A subtraction below zero yields zero instead of failing.
    pub allow_underflow: bool,
    /// Constants may stand wherever a value is read, and a variable may be copied.
    pub allow_constants_everywhere: bool,
    /// Operators beyond `+` and `-` (that is `*`) are accepted.
    pub extra_operators: bool,
}

/// The configuration after the pragma `#name`, or `None` where `name` is not
/// the name of a flag.
pub open spec fn enabled(c: Config, name: Seq<char>) -> Option<Config> {
    if name == "allow_named_vars"@ {
        Some(Config { allow_named_vars: true, ..c })
    } else if name == "allow_underflow"@ {
        Some(Config { allow_underflow: true, ..c })
    } else if name == "allow_constants_everywhere"@ {
        Some(Config { allow_constants_everywhere: true, ..c })
    } else if name == "extra_operators"@ {
        Some(Config { extra_operators: true, ..c })
    } else {
        None
    }
}

impl Config {
    /// Every flag off.
    pub fn new() -> (r: Config)
        ensures
            !r.allow_named_vars,
            !r.allow_underflow,
            !r.allow_constants_everywhere,
            !r.extra_operators,
    {
        Config {
            allow_named_vars: false,
            allow_underflow: false,
            allow_constants_everywhere: false,
            extra_operators: false,
        }
    }

    /// Turns on the flag called `arg`; fails, changing nothing, where no flag
    /// has that name.
    pub fn enable(&mut self, arg: &str) -> (r: Result<(), ()>)
        ensures
            match enabled(*old(self), arg@) {
                Some(c) => r is Ok && *final(self) == c,
                None => r is Err && *final(self) == *old(self),
            },
    {
        if same_text(arg, "allow_named_vars") {
            self.allow_named_vars = true;
        } else if same_text(arg, "allow_underflow") {
            self.allow_underflow = true;
        } else if same_text(arg, "allow_constants_everywhere") {
            self.allow_constants_everywhere = true;
        } else if same_text(arg, "extra_operators") {
            self.extra_operators = true;
        } else {
            return Err(());
        }
        Ok(())
    }
}

} // verus!
