//! When the validation layer is used.

use vstd::prelude::*;

verus! {

/// An ASCII letter in lower case; any other character as it is.
pub open spec fn lower(c: char) -> char {
    if 'A' <= c && c <= 'Z' {
        (c as int + 32) as char
    } else {
        c
    }
}

/// `s` with its ASCII letters in lower case.
pub open spec fn lowered(s: Seq<char>) -> Seq<char> {
    Seq::new(s.len(), |i: int| lower(s[i]))
}

/// Whether `c` is the lower-case letter `l` or its capital.
fn same_letter(c: char, l: char) -> (r: bool)
    requires
        'a' <= l && l <= 'z',
    ensures
        r == (lower(c) == l),
{
    let n: u32 = c as u32;
    let m: u32 = l as u32;
    n == m || (65 <= n && n <= 90 && n + 32 == m)
}

/// Whether `s` is `word`, which is in lower case, in any case.
fn is_word(s: &str, word: &str) -> (r: bool)
    requires
        forall|i: int| 0 <= i < word@.len() ==> 'a' <= #[trigger] word@[i] && word@[i] <= 'z',
    ensures
        r == (lowered(s@) == word@),
{
    let n: usize = s.unicode_len();
    if n != word.unicode_len() {
        return false;
    }
    let mut i: usize = 0;
    while i < n
        invariant
            n == s@.len(),
            n == word@.len(),
            i <= n,
            forall|k: int| 0 <= k < word@.len() ==> 'a' <= #[trigger] word@[k] && word@[k] <= 'z',
            forall|k: int| 0 <= k < i ==> lower(#[trigger] s@[k]) == word@[k],
        decreases n - i,
    {
        if !same_letter(s.get_char(i), word.get_char(i)) {
            proof {
                assert(lowered(s@)[i as int] != word@[i as int]);
            }
            return false;
        }
        i = i + 1;
    }
    proof {
        assert(lowered(s@) =~= word@);
    }
    true
}

/// Whether validation is asked for: by the setting unless it says zero, false or
/// off, and without a setting in debug builds.
pub open spec fn wants_validation(setting: Option<Seq<char>>, debug_build: bool) -> bool {
    match setting {
        Some(v) => v != "0"@ && lowered(v) != "false"@ && lowered(v) != "off"@,
        None => debug_build,
    }
}

pub fn validation_requested(setting: Option<&str>, debug_build: bool) -> (r: bool)
    ensures
        r == wants_validation(
            match setting {
                Some(v) => Some(v@),
                None => None,
            },
            debug_build,
        ),
{
    match setting {
        Some(v) => {
            proof {
                reveal_strlit("0");
                reveal_strlit("false");
                reveal_strlit("off");
            }
            let zero: bool = v.unicode_len() == 1 && v.get_char(0) == '0';
            proof {
                if zero {
                    assert(v@ =~= "0"@);
                }
            }
            !zero && !is_word(v, "false") && !is_word(v, "off")
        },
        None => debug_build,
    }
}

/// The next step of creating the instance.
#[derive(Clone, Copy, Debug, PartialEq, Eq, Structural)]
pub enum InstanceStep {
    /// Create it with the validation layer.
    WithLayer,
    /// Create it without.
    Plain,
    /// It is there; listen for messages if `messages`.
    Done { messages: bool },
    /// It cannot be created.
    Fail,
}

/// Where creation starts: with the layer when it is wanted and there.
#[verifier::allow_in_spec]
pub fn first_step(requested: bool, has_layer: bool) -> InstanceStep
    returns
        (if requested && has_layer {
            InstanceStep::WithLayer
        } else {
            InstanceStep::Plain
        }),
{
    if requested && has_layer {
        InstanceStep::WithLayer
    } else {
        InstanceStep::Plain
    }
}

/// What follows an attempt. A layer that is listed but does not load costs only the
/// messages.
#[verifier::allow_in_spec]
pub fn after_attempt(step: InstanceStep, created: bool) -> InstanceStep
    returns
        (match step {
            InstanceStep::WithLayer => if created {
                InstanceStep::Done { messages: true }
            } else {
                InstanceStep::Plain
            },
            InstanceStep::Plain => if created {
                InstanceStep::Done { messages: false }
            } else {
                InstanceStep::Fail
            },
            done => done,
        }),
{
    match step {
        InstanceStep::WithLayer => if created {
            InstanceStep::Done { messages: true }
        } else {
            InstanceStep::Plain
        },
        InstanceStep::Plain => if created {
            InstanceStep::Done { messages: false }
        } else {
            InstanceStep::Fail
        },
        done => done,
    }
}

/// At most two attempts settle the matter, and it fails only when the plain one does.
pub proof fn law_two_attempts_settle(requested: bool, has_layer: bool, first: bool, second: bool)
    ensures
        ({
            let end = after_attempt(after_attempt(first_step(requested, has_layer), first), second);
            &&& end is Done || end is Fail
            &&& end is Fail ==> !first
            &&& end == (InstanceStep::Done { messages: true }) ==> requested && has_layer && first
        }),
{
}

/// Upper and lower case of a letter are the same to a setting, and lowering twice is
/// lowering once.
pub proof fn law_case_does_not_matter(c: char, d: char)
    ensures
        lower(lower(c)) == lower(c),
        'A' <= c && c <= 'Z' && d as int == c as int + 32 ==> lower(c) == d && lower(d) == d,
        !('A' <= c && c <= 'Z') ==> lower(c) == c,
{
}

/// A setting decides by its letters alone, whatever their case; without one the build does.
pub proof fn law_the_setting_decides_validation(v: Seq<char>, w: Seq<char>, debug_build: bool)
    ensures
        wants_validation(None, debug_build) == debug_build,
        wants_validation(Some("0"@), debug_build) == false,
        lowered(v) == "false"@ || lowered(v) == "off"@ ==> !wants_validation(
            Some(v),
            debug_build,
        ),
        lowered(v) == lowered(w) && v != "0"@ && w != "0"@ ==> wants_validation(
            Some(v),
            debug_build,
        ) == wants_validation(Some(w), debug_build),
        v != "0"@ && lowered(v) != "false"@ && lowered(v) != "off"@ ==> wants_validation(
            Some(v),
            debug_build,
        ),
{
}

} // verus!
