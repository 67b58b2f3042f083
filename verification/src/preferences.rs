//! Small non-authoritative UI preferences, kept apart from editor history:
//! where they live beside the configuration and which values are accepted.
use vstd::prelude::*;
use crate::text::{chars_of, string_of};

verus! {

/// The largest preferences file that is read, in bytes.
pub const MAX_PREFERENCES_BYTES: usize = 4096;

/// The number of steps of the first-run guide.
pub const GUIDE_STEPS: u8 = 4;

/// Remembered guide progress and display choices. `verified_address` is the
/// last device address confirmed by the user, as its four octets.
#[derive(Clone, Copy, Debug, PartialEq, Eq)]
pub struct Preferences {
    pub guide_dismissed: bool,
    pub guide_started: bool,
    pub guide_step: u8,
    pub hide_tooltips: bool,
    pub hide_demos: bool,
    pub strip_placed: bool,
    pub setup_complete: bool,
    pub verified_address: Option<[u8; 4]>,
}

/// Why preferences cannot be located, read or written.
#[derive(Clone, Copy, Debug, PartialEq, Eq, Structural)]
pub enum PreferencesError {
    NoFileName,
    TooLarge,
    InvalidStep,
}

impl PreferencesError {
    pub fn message(self) -> (r: &'static str)
        ensures
            r@ == (match self {
                PreferencesError::NoFileName => "Setup needs a filename"@,
                PreferencesError::TooLarge => "Guide preferences exceed 4 KiB"@,
                PreferencesError::InvalidStep => "Invalid guide step"@,
            }),
    {
        match self {
            PreferencesError::NoFileName => "Setup needs a filename",
            PreferencesError::TooLarge => "Guide preferences exceed 4 KiB",
            PreferencesError::InvalidStep => "Invalid guide step",
        }
    }
}

/// Nothing dismissed, started or hidden, the first guide step, no address.
pub open spec fn fresh_preferences() -> Preferences {
    Preferences {
        guide_dismissed: false,
        guide_started: false,
        guide_step: 0,
        hide_tooltips: false,
        hide_demos: false,
        strip_placed: false,
        setup_complete: false,
        verified_address: None,
    }
}

impl Default for Preferences {
    fn default() -> (r: Self)
        ensures
            r == fresh_preferences(),
    {
        Preferences {
            guide_dismissed: false,
            guide_started: false,
            guide_step: 0,
            hide_tooltips: false,
            hide_demos: false,
            strip_placed: false,
            setup_complete: false,
            verified_address: None,
        }
    }
}

/// A path without its trailing separators and `.` components; both name
/// the same location.
pub open spec fn trimmed_path(p: Seq<char>) -> Seq<char>
    decreases p.len(),
{
    if p.len() == 0 {
        p
    } else if p.last() == '/' {
        trimmed_path(p.drop_last())
    } else if p.last() == '.' && (p.len() == 1 || p[p.len() - 2] == '/') {
        trimmed_path(p.drop_last())
    } else {
        p
    }
}

/// A trimmed path with no file name: empty, the root, or ending in `..`.
pub open spec fn names_no_file(t: Seq<char>) -> bool {
    ||| t.len() == 0
    ||| t == seq!['.', '.']
    ||| t.len() >= 3 && t.subrange(t.len() - 3, t.len() as int) == seq!['/', '.', '.']
}

pub open spec fn ui_suffix() -> Seq<char> {
    seq!['.', 'u', 'i', '.', 'j', 's', 'o', 'n']
}

/// Where the preferences of the configuration file `config` live: beside
/// it, under its file name followed by `.ui.json`.
pub open spec fn preferences_path_of(config: Seq<char>) -> Option<Seq<char>> {
    let t = trimmed_path(config);
    if names_no_file(t) {
        None
    } else {
        Some(t + ui_suffix())
    }
}

impl Preferences {
    /// The preferences path beside the configuration file `config`; a path
    /// without a file name (empty, the root, or ending in `..`) has none.
    /// Separators and `.` components before the file name are kept as
    /// written, so the result names the file that replacing the file name of
    /// `config` by `<name>.ui.json` names.
    pub fn path_for(config: &str) -> (r: Result<String, PreferencesError>)
        ensures
            match preferences_path_of(config@) {
                Some(p) => r matches Ok(s) && s@ == p,
                None => r == Err::<String, PreferencesError>(PreferencesError::NoFileName),
            },
    {
        let c = chars_of(config);
        let mut e: usize = c.len();
        assert(config@.take(e as int) =~= config@);
        while e > 0 && (c[e - 1] == '/' || (c[e - 1] == '.' && (e == 1 || c[e - 2] == '/')))
            invariant
                e <= c@.len(),
                c@ == config@,
                trimmed_path(config@) == trimmed_path(config@.take(e as int)),
            decreases e,
        {
            assert(config@.take(e as int).drop_last() =~= config@.take(e - 1));
            e -= 1;
        }
        let ghost t = config@.take(e as int);
        assert(trimmed_path(t) == t);
        let dots = e >= 2 && c[e - 1] == '.' && c[e - 2] == '.';
        if e == 0 || (dots && (e == 2 || c[e - 3] == '/')) {
            if e == 2 {
                assert(t =~= seq!['.', '.']);
            } else if e > 2 {
                assert(t.subrange(t.len() - 3, t.len() as int) =~= seq!['/', '.', '.']);
            }
            return Err(PreferencesError::NoFileName);
        }
        if e == 2 {
            assert(t != seq!['.', '.']) by {
                if t == seq!['.', '.'] {
                    assert(t[0] == '.' && t[1] == '.');
                }
            }
        }
        if e >= 3 {
            assert(t.subrange(t.len() - 3, t.len() as int) != seq!['/', '.', '.']) by {
                let w = t.subrange(t.len() - 3, t.len() as int);
                if w == seq!['/', '.', '.'] {
                    assert(w[0] == t[e - 3] && w[1] == t[e - 2] && w[2] == t[e - 1]);
                }
            }
        }
        let mut out = string_of(c.as_slice(), 0, e);
        let suffix = ['.', 'u', 'i', '.', 'j', 's', 'o', 'n'];
        assert(suffix@ =~= ui_suffix());
        let mut k: usize = 0;
        while k < suffix.len()
            invariant
                k <= suffix@.len(),
                suffix@ == ui_suffix(),
                out@ == t + suffix@.take(k as int),
            decreases suffix@.len() - k,
        {
            out.push(suffix[k]);
            k += 1;
            assert(out@ =~= t + suffix@.take(k as int));
        }
        assert(suffix@.take(k as int) =~= ui_suffix());
        Ok(out)
    }

    /// A preferences file of `len` bytes may be read.
    pub fn check_size(len: usize) -> (r: Result<(), PreferencesError>)
        ensures
            len <= MAX_PREFERENCES_BYTES ==> r is Ok,
            len > MAX_PREFERENCES_BYTES ==> r == Err::<(), PreferencesError>(PreferencesError::TooLarge),
    {
        if len > MAX_PREFERENCES_BYTES {
            Err(PreferencesError::TooLarge)
        } else {
            Ok(())
        }
    }

    /// Preferences are accepted, read or written, only at a guide step that
    /// exists.
    pub fn validate(&self) -> (r: Result<(), PreferencesError>)
        ensures
            self.guide_step < GUIDE_STEPS ==> r is Ok,
            self.guide_step >= GUIDE_STEPS ==> r == Err::<(), PreferencesError>(PreferencesError::InvalidStep),
    {
        if self.guide_step < GUIDE_STEPS {
            Ok(())
        } else {
            Err(PreferencesError::InvalidStep)
        }
    }
}

} // verus!
