//! What an amount field does with the text typed into it: which characters
//! it keeps, which keystrokes it ignores, and how it clamps to the available
//! liquidity and keeps the other side of the swap in step.
use vstd::prelude::*;
use crate::decimal::{
    digit_of, digits_value, is_digit, is_digit_char, push_digit, lemma_digit_round_trip,
    lemma_pow10_six,
};
use crate::units::{
    amount_units, convert_receive_to_send, convert_send_to_receive, display_of_units, dot_index,
    frac_part, is_amount_text, receive_for_send, saturate, send_for_receive, string_to_units,
    units_to_string, whole_part,
};

verus! {

pub open spec fn is_amount_char(c: char) -> bool {
    is_digit(c) || c == '.'
}

/// The digits and decimal points of `s`, in order; everything else dropped.
pub open spec fn amount_chars(s: Seq<char>) -> Seq<char>
    decreases s.len(),
{
    if s.len() == 0 {
        Seq::empty()
    } else if is_amount_char(s.last()) {
        amount_chars(s.drop_last()).push(s.last())
    } else {
        amount_chars(s.drop_last())
    }
}

/// How many decimal points `s` holds.
pub open spec fn dot_count(s: Seq<char>) -> nat
    decreases s.len(),
{
    if s.len() == 0 {
        0
    } else if s.last() == '.' {
        dot_count(s.drop_last()) + 1
    } else {
        dot_count(s.drop_last())
    }
}

/// Keeps the digits and decimal points of `raw`, in order.
pub fn sanitize_amount(raw: &str) -> (r: String)
    ensures
        r@ == amount_chars(raw@),
{
    let n = raw.unicode_len();
    let mut out = String::new();
    let mut i: usize = 0;
    while i < n
        invariant
            n == raw@.len(),
            i <= n,
            out@ == amount_chars(raw@.take(i as int)),
        decreases n - i,
    {
        let c = raw.get_char(i);
        assert(raw@.take(i + 1).drop_last() =~= raw@.take(i as int));
        if is_digit_char(c) {
            proof {
                lemma_digit_round_trip(c);
            }
            push_digit(&mut out, digit_of(c));
        } else if c == '.' {
            proof {
                reveal_strlit(".");
            }
            out.append(".");
            assert(out@ =~= amount_chars(raw@.take(i + 1)));
        }
        i = i + 1;
    }
    assert(raw@.take(n as int) =~= raw@);
    out
}

/// Counts the decimal points of `s`.
pub fn count_dots(s: &str) -> (r: usize)
    ensures
        r == dot_count(s@),
{
    let n = s.unicode_len();
    let mut count: usize = 0;
    let mut i: usize = 0;
    while i < n
        invariant
            n == s@.len(),
            i <= n,
            count == dot_count(s@.take(i as int)),
            count <= i,
        decreases n - i,
    {
        assert(s@.take(i + 1).drop_last() =~= s@.take(i as int));
        if s.get_char(i) == '.' {
            count = count + 1;
        }
        i = i + 1;
    }
    assert(s@.take(n as int) =~= s@);
    count
}

/// How an amount field of the swap form is set up.
#[derive(Clone, Copy, Debug)]
pub struct AmountField {
    /// The field holds the receive side; otherwise the send side.
    pub is_receive: bool,
    /// The field ignores every keystroke.
    pub read_only: bool,
    /// The largest amount that can be received, in units.
    pub max_units: Option<u64>,
    /// The swap rate, scaled by RATE_SCALE. Zero counts as no rate: neither
    /// conversion is defined for it.
    pub swap_rate_units: Option<u64>,
}

/// What the field does after a keystroke it accepts.
#[derive(Debug)]
pub struct FieldUpdate {
    /// The text the field shows from now on.
    pub shown: String,
    /// Whether the value bound to the field is set to `shown` as well.
    pub sets_value: bool,
    /// The text handed to the field's change callback.
    pub notify: String,
    /// Whether the input went over the maximum: the warning is raised, the
    /// field clamped, and the warning cleared again at once.
    pub exceeded: bool,
}

pub struct FieldUpdateView {
    pub shown: Seq<char>,
    pub sets_value: bool,
    pub notify: Seq<char>,
    pub exceeded: bool,
}

impl View for FieldUpdate {
    type V = FieldUpdateView;

    open spec fn view(&self) -> FieldUpdateView {
        FieldUpdateView {
            shown: self.shown@,
            sets_value: self.sets_value,
            notify: self.notify@,
            exceeded: self.exceeded,
        }
    }
}

/// The field's rate, where it has one that is not zero.
pub open spec fn usable_rate(field: AmountField) -> Option<u64> {
    match field.swap_rate_units {
        Some(q) => if q > 0 {
            Some(q)
        } else {
            None
        },
        None => None,
    }
}

/// Accepts `text` as typed, and passes it on.
pub open spec fn plain_update(text: Seq<char>) -> FieldUpdateView {
    FieldUpdateView { shown: text, sets_value: true, notify: text, exceeded: false }
}

/// Over the maximum: show `shown`, pass `notify` on, signal the excess.
pub open spec fn clamped_update(shown: Seq<char>, notify: Seq<char>) -> FieldUpdateView {
    FieldUpdateView { shown, sets_value: false, notify, exceeded: true }
}

/// The display string of the send units that `receive` units cost at `rate`.
pub open spec fn send_display(receive: nat, rate: u64) -> Seq<char> {
    display_of_units(saturate(send_for_receive(receive as int, rate as int)) as nat)
}

/// What the field does when its text becomes `raw`; `None` where the
/// keystroke is ignored and the field keeps its state.
///
/// The text kept is `raw` without the characters that are neither digits nor
/// '.'; an empty text is the amount zero. A read-only field, a text with more
/// than one '.' and one that is no amount are ignored. A receive field with a
/// rate shows the text and passes on the send amount it costs; over the
/// maximum it shows the maximum and passes on what the maximum costs. A
/// receive field without a rate clamps to the maximum alone. A send field
/// whose receive amount would exceed the maximum shows and passes on the send
/// amount that the maximum costs. Otherwise the text is shown, bound and
/// passed on as it is.
pub open spec fn field_update(field: AmountField, raw: Seq<char>) -> Option<FieldUpdateView> {
    let text = amount_chars(raw);
    let units = amount_units(text);
    let has_text = text.len() > 0;
    if field.read_only || dot_count(text) > 1 || !is_amount_text(text) || units > u64::MAX {
        None
    } else if field.is_receive {
        if usable_rate(field) is Some && has_text {
            let q = usable_rate(field)->0;
            if field.max_units is Some && units > field.max_units->0 {
                let mx = field.max_units->0;
                Some(clamped_update(display_of_units(mx as nat), send_display(mx as nat, q)))
            } else {
                Some(
                    FieldUpdateView {
                        shown: text,
                        sets_value: false,
                        notify: send_display(units, q),
                        exceeded: false,
                    },
                )
            }
        } else if field.max_units is Some && has_text && units > field.max_units->0 {
            let shown = display_of_units(field.max_units->0 as nat);
            Some(clamped_update(shown, shown))
        } else {
            Some(plain_update(text))
        }
    } else if field.max_units is Some && usable_rate(field) is Some && has_text && saturate(
        receive_for_send(units as int, usable_rate(field)->0 as int),
    ) > field.max_units->0 {
        let shown = send_display(field.max_units->0 as nat, usable_rate(field)->0);
        Some(clamped_update(shown, shown))
    } else {
        Some(plain_update(text))
    }
}

fn send_units_for(receive_units: u64, rate: u64) -> (r: u64)
    requires
        rate > 0,
    ensures
        r == saturate(send_for_receive(receive_units as int, rate as int)),
{
    match convert_receive_to_send(receive_units, rate) {
        Some(v) => v,
        None => 0,
    }
}

fn receive_units_for(send_units: u64, rate: u64) -> (r: u64)
    requires
        rate > 0,
    ensures
        r == saturate(receive_for_send(send_units as int, rate as int)),
{
    match convert_send_to_receive(send_units, rate) {
        Some(v) => v,
        None => 0,
    }
}

/// Decides what the field does when its text becomes `raw`, as
/// `field_update` states; `None` where the keystroke is ignored.
pub fn handle_amount_input(field: &AmountField, raw: &str) -> (r: Option<FieldUpdate>)
    ensures
        match r {
            Some(u) => field_update(*field, raw@) == Some(u@),
            None => field_update(*field, raw@) is None,
        },
{
    if field.read_only {
        return None;
    }
    let text = sanitize_amount(raw);
    if count_dots(text.as_str()) > 1 {
        return None;
    }
    let has_text = text.as_str().unicode_len() > 0;
    let units: u64 = if has_text {
        match string_to_units(text.as_str()) {
            Some(u) => u,
            None => {
                return None;
            },
        }
    } else {
        proof {
            assert(text@ =~= Seq::<char>::empty());
            assert(dot_index(text@) == 0);
            assert(whole_part(text@) =~= Seq::<char>::empty());
            assert(frac_part(text@) =~= Seq::<char>::empty());
            assert(digits_value(Seq::<char>::empty()) == 0);
            lemma_pow10_six();
            assert(amount_units(text@) == 0);
        }
        0
    };
    let ghost spec_result = field_update(*field, raw@);
    let rate: Option<u64> = match field.swap_rate_units {
        Some(q) => if q > 0 {
            Some(q)
        } else {
            None
        },
        None => None,
    };
    if field.is_receive {
        if has_text && rate.is_some() {
            let q = rate.unwrap();
            match field.max_units {
                Some(mx) => if units > mx {
                    let shown = units_to_string(mx);
                    let notify = units_to_string(send_units_for(mx, q));
                    return Some(FieldUpdate { shown, sets_value: false, notify, exceeded: true });
                },
                None => {},
            }
            let notify = units_to_string(send_units_for(units, q));
            return Some(FieldUpdate { shown: text, sets_value: false, notify, exceeded: false });
        }
        match field.max_units {
            Some(mx) => if has_text && units > mx {
                let shown = units_to_string(mx);
                let notify = shown.clone();
                return Some(FieldUpdate { shown, sets_value: false, notify, exceeded: true });
            },
            None => {},
        }
    } else {
        match (field.max_units, rate) {
            (Some(mx), Some(q)) => if has_text && receive_units_for(units, q) > mx {
                let shown = units_to_string(send_units_for(mx, q));
                let notify = shown.clone();
                return Some(FieldUpdate { shown, sets_value: false, notify, exceeded: true });
            },
            _ => {},
        }
    }
    let notify = text.clone();
    Some(FieldUpdate { shown: text, sets_value: true, notify, exceeded: false })
}

/// The notice under a receive field that went over the maximum; none where
/// the maximum is zero.
pub fn max_output_notice(max_units: u64) -> (r: Option<String>)
    ensures
        max_units == 0 <==> r is None,
        r matches Some(m) ==> m@ == "Maximum output is "@ + display_of_units(max_units as nat)
            + " USDT"@,
{
    if max_units == 0 {
        return None;
    }
    let mut msg = String::from_str("Maximum output is ");
    let amount = units_to_string(max_units);
    msg.append(amount.as_str());
    msg.append(" USDT");
    Some(msg)
}

} // verus!
