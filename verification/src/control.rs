//! The decisions of the interface list: when to reload, what a click on a
//! status button does, which way a toggle goes and when it has taken effect.
use vstd::prelude::*;
use crate::link::{iface_views, Iface, IfaceView};

verus! {

/// What a click on an interface's status button leads to.
#[derive(Clone, Copy, Debug, PartialEq, Eq, Structural)]
pub enum ClickOutcome {
    /// Nothing happens.
    Ignore,
    /// The interface is switched at once with the remembered password.
    Toggle,
    /// The password dialog opens for the switch.
    AskPassword,
}

/// What a finished check of the sudo password does.
#[derive(Clone, Copy, Debug, PartialEq, Eq, Structural)]
pub struct PasswordChecked {
    /// The typed password is kept for later switches.
    pub remember: bool,
    /// The pending switch is carried out.
    pub toggle: bool,
    /// The password dialog closes.
    pub close: bool,
}

/// The message the password dialog shows once Apply is pressed.
#[derive(Clone, Copy, Debug, PartialEq, Eq, Structural)]
pub enum ApplyFeedback {
    /// Nothing was typed.
    EnterPassword,
    /// The password is being checked.
    Checking,
}

/// A finished password check: on success the password is remembered and the
/// pending switch runs; the dialog closes either way.
pub fn password_checked(ok: bool) -> (r: PasswordChecked)
    ensures
        r == (PasswordChecked { remember: ok, toggle: ok, close: true }),
{
    PasswordChecked { remember: ok, toggle: ok, close: true }
}

/// After Apply: ask for a password when none was typed, say that it is being
/// checked otherwise.
pub fn apply_feedback(input: &str) -> (r: ApplyFeedback)
    ensures
        r == (if input@.len() == 0 {
            ApplyFeedback::EnterPassword
        } else {
            ApplyFeedback::Checking
        }),
{
    if input.unicode_len() == 0 {
        ApplyFeedback::EnterPassword
    } else {
        ApplyFeedback::Checking
    }
}

/// A click on a row opens its detail window when it was not a click on the
/// row's status button and neither a detail window nor the password dialog
/// is open.
pub fn opens_detail(row_clicked: bool, status_clicked: bool, detail_open: bool, dialog_open: bool) -> (r: bool)
    ensures
        r == (row_clicked && !status_clicked && !detail_open && !dialog_open),
{
    row_clicked && !status_clicked && !detail_open && !dialog_open
}

/// Polling after a switch stops once it has taken effect or more than five
/// seconds have passed since polling began.
pub fn stop_polling(settled: bool, elapsed_nanos: u128) -> (r: bool)
    ensures
        r == (settled || elapsed_nanos > 5_000_000_000),
{
    settled || elapsed_nanos > 5_000_000_000
}

/// The `ip link set` action that switches an interface: `down` when it is
/// up, `up` otherwise.
pub fn toggle_action(up: bool) -> (r: &'static str)
    ensures
        r@ == (if up {
            "down"@
        } else {
            "up"@
        }),
{
    if up {
        "down"
    } else {
        "up"
    }
}

/// The state an action aims at: up exactly for the action `up`.
pub fn target_up(action: &str) -> (r: bool)
    ensures
        r == (action@ == "up"@),
{
    let v = crate::text::char_vec(action);
    assert(v@.subrange(0, v@.len() as int) =~= v@);
    crate::text::range_eq(&v, 0, v.len(), "up")
}

/// A switch aims at the opposite of the state it starts from.
pub proof fn law_toggle_inverts(up: bool)
    ensures
        ((if up {
            "down"@
        } else {
            "up"@
        }) == "up"@) == !up,
{
    reveal_strlit("down");
    reveal_strlit("up");
    if up {
        assert("down"@.len() != "up"@.len());
    }
}

/// A switch has taken effect: the first interface of that name has reached
/// the target state, or no interface has that name any more.
pub open spec fn settled(v: Seq<IfaceView>, name: Seq<char>, target: bool) -> bool
    decreases v.len(),
{
    if v.len() == 0 {
        true
    } else if v[0].name == name {
        v[0].up == target
    } else {
        settled(v.drop_first(), name, target)
    }
}

/// A switch of an interface that has vanished counts as done.
pub proof fn law_settled_when_absent(v: Seq<IfaceView>, name: Seq<char>, target: bool)
    requires
        forall|i: int| 0 <= i < v.len() ==> #[trigger] v[i].name != name,
    ensures
        settled(v, name, target),
    decreases v.len(),
{
    if v.len() > 0 {
        assert(v[0].name != name);
        assert forall|i: int| 0 <= i < v.drop_first().len() implies #[trigger] v.drop_first()[i].name
            != name by {
            assert(v.drop_first()[i] == v[i + 1]);
        }
        law_settled_when_absent(v.drop_first(), name, target);
    }
}

/// Whether a switch of `name` towards `target` has taken effect in a fresh
/// interface list.
pub fn toggle_settled(ifaces: &Vec<Iface>, name: &str, target: bool) -> (r: bool)
    ensures
        r == settled(iface_views(ifaces@), name@, target),
{
    let name_s = String::from_str(name);
    let ghost all = iface_views(ifaces@);
    let mut i: usize = 0;
    assert(all.skip(0) =~= all);
    while i < ifaces.len()
        invariant
            0 <= i <= ifaces@.len(),
            all == iface_views(ifaces@),
            name_s@ == name@,
            settled(all, name@, target) == settled(all.skip(i as int), name@, target),
        decreases ifaces@.len() - i,
    {
        assert(all.skip(i as int)[0] == ifaces@[i as int]@);
        if ifaces[i].name == name_s {
            return ifaces[i].up == target;
        }
        assert(all.skip(i as int).drop_first() =~= all.skip(i + 1));
        i = i + 1;
    }
    true
}

/// A click on a status button: ignored while that interface is being
/// switched or the password dialog is open; otherwise it switches at once
/// when a password is remembered and asks for one when not.
pub fn status_click(clicked: bool, toggling: bool, dialog_open: bool, has_password: bool) -> (r:
    ClickOutcome)
    ensures
        r == (if !clicked || toggling || dialog_open {
            ClickOutcome::Ignore
        } else if has_password {
            ClickOutcome::Toggle
        } else {
            ClickOutcome::AskPassword
        }),
{
    if !clicked || toggling || dialog_open {
        ClickOutcome::Ignore
    } else if has_password {
        ClickOutcome::Toggle
    } else {
        ClickOutcome::AskPassword
    }
}

/// The list is reloaded when more than ten seconds have passed since the
/// last load and no load is running.
pub fn should_reload(elapsed_nanos: u128, loading: bool) -> (r: bool)
    ensures
        r == (elapsed_nanos > 10_000_000_000 && !loading),
{
    elapsed_nanos > 10_000_000_000 && !loading
}

} // verus!
