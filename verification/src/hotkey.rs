//! The global hotkey, and what to fall back to when the first choice is taken.
//!
//! A global shortcut is a resource of the whole operating system: it is won or
//! it is not, and the only way to know is to try. So a list is tried in order
//! and the first combination that registers is kept.

use vstd::prelude::*;

verus! {

/// The combination the app has always used, and still prefers: a global
/// shortcut is taken from every other application, so it has to be one
/// nothing else is likely to want.
pub const HOTKEY: &'static str = "Ctrl+Alt+Space";

/// The combinations to try, in order.
///
/// `Ctrl+Alt+Space` first, because it is what the app has always used. None
/// is `Alt+Space` (the Windows system menu) or `Ctrl+Space` (the input-method
/// switch, Vietnamese included).
pub const CANDIDATES: [&'static str; 4] = ["Ctrl+Alt+Space", "Ctrl+Alt+F", "Ctrl+Shift+Space", "Ctrl+Alt+M"];

/// The first combination: the one the app *wants*.
pub fn preferred() -> (r: &'static str)
    ensures
        r@ == CANDIDATES@[0]@,
{
    CANDIDATES[0]
}

/// Try the candidates in order and return the first one `try_one` manages to
/// register, stopping there.
///
/// Kept apart from the calls into the windowing toolkit so that "two programs
/// want the same key" can be tested with a stand-in.
pub fn pick<F: Fn(&str) -> bool>(try_one: F) -> (r: Option<&'static str>)
    requires
        forall|i: int| 0 <= i < CANDIDATES@.len() ==> call_requires(try_one, (CANDIDATES@[i],)),
    ensures
        match r {
            Some(c) => exists|i: int|
                0 <= i < CANDIDATES@.len() && c == CANDIDATES@[i] && call_ensures(try_one, (CANDIDATES@[i],), true)
                    && forall|j: int| 0 <= j < i ==> call_ensures(try_one, (#[trigger] CANDIDATES@[j],), false),
            None => forall|j: int| 0 <= j < CANDIDATES@.len() ==> call_ensures(try_one, (#[trigger] CANDIDATES@[j],), false),
        },
{
    let mut i: usize = 0;
    while i < CANDIDATES.len()
        invariant
            i <= CANDIDATES@.len(),
            forall|k: int| 0 <= k < CANDIDATES@.len() ==> call_requires(try_one, (CANDIDATES@[k],)),
            forall|j: int| 0 <= j < i ==> call_ensures(try_one, (#[trigger] CANDIDATES@[j],), false),
        decreases CANDIDATES@.len() - i,
    {
        let c = CANDIDATES[i];
        if try_one(c) {
            return Some(c);
        }
        i += 1;
    }
    None
}

/// Whether the combination in use is a fallback: one is in use, and it is
/// not the preferred one.
pub open spec fn falls_back(in_use: Seq<char>) -> bool {
    in_use.len() > 0 && in_use != CANDIDATES@[0]@
}

/// Whether the combination in use (empty when none) is a fallback, so the
/// window can explain why the familiar key no longer works.
pub fn is_fallback(in_use: &str) -> (r: bool)
    ensures
        r == falls_back(in_use@),
{
    let cur = crate::text::str_chars(in_use);
    let want = crate::text::str_chars(preferred());
    cur.len() > 0 && !crate::text::chars_equal(cur.as_slice(), want.as_slice())
}

/// The hotkey actually in use, and whether there is one.
///
/// Every place that shows the key (tray, tooltip, window footer) reads this
/// one record: a place that hard-codes `Ctrl+Alt+Space` lies as soon as a
/// fallback had to be taken. `active` is kept beside the text so a reader that
/// only needs yes or no does not have to look at the text.
pub struct HotkeyState {
    combo: String,
    active: bool,
}

impl HotkeyState {
    /// A hotkey was won exactly when the combination is not empty.
    #[verifier::type_invariant]
    spec fn holds_together(self) -> bool {
        self.active == (self.combo@.len() > 0)
    }

    pub closed spec fn combo_text(self) -> Seq<char> {
        self.combo@
    }

    /// Nothing registered yet.
    pub fn new() -> (r: HotkeyState)
        ensures
            r.combo_text() == Seq::<char>::empty(),
    {
        HotkeyState { combo: crate::text::string_from_chars(&[]), active: false }
    }

    /// Record the combination that was won; empty when every one failed.
    pub fn set_in_use(&mut self, combo: &str)
        ensures
            final(self).combo_text() == combo@,
    {
        let c = crate::text::str_chars(combo);
        let active = c.len() > 0;
        *self = HotkeyState { combo: crate::text::string_from_chars(c.as_slice()), active };
    }

    /// The combination in use, or the empty string.
    pub fn in_use(&self) -> (r: String)
        ensures
            r@ == self.combo_text(),
    {
        crate::text::string_from_chars(crate::text::str_chars(self.combo.as_str()).as_slice())
    }

    /// Whether any combination could be registered.
    pub fn active(&self) -> (r: bool)
        ensures
            r == (self.combo_text().len() > 0),
    {
        proof {
            use_type_invariant(self);
        }
        self.active
    }

    /// Whether the combination in use is a fallback.
    pub fn is_fallback(&self) -> (r: bool)
        ensures
            r == falls_back(self.combo_text()),
    {
        is_fallback(self.combo.as_str())
    }
}

} // verus!
