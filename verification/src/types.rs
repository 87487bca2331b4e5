//! Orders paid through BitPay: their statuses, the invoice answer, and the rules
//! the payment webhook follows: which requests it serves, how it reads a header,
//! how it maps an invoice status, and how an order's status moves.
use vstd::prelude::*;
use crate::text::{utf8_of, is_prefix};

verus! {

#[derive(PartialEq, Eq, Structural, Clone, Copy, Debug)]
pub enum OrderStatus {
    Created,
    New,
    Paid,
    Confirmed,
    Complete,
    Expired,
    Invalid,
    Delivered,
}

/// The invoice that BitPay opened for an order.
#[derive(Debug)]
pub struct InvoiceResp {
    pub invoice_id: String,
    pub invoice_url: String,
}

/// The ASCII lower case of a byte.
pub open spec fn ascii_lower(b: u8) -> u8 {
    if 65 <= b <= 90 {
        (b + 32) as u8
    } else {
        b
    }
}

/// Whether two byte strings are equal up to ASCII case.
pub open spec fn same_ignoring_case(a: Seq<u8>, b: Seq<u8>) -> bool {
    a.len() == b.len() && forall|i: int| 0 <= i < a.len() ==> ascii_lower(#[trigger] a[i]) == ascii_lower(b[i])
}

/// Whether two strings are equal up to ASCII case, as `str::eq_ignore_ascii_case`.
pub fn eq_ignore_case(a: &str, b: &str) -> (r: bool)
    ensures
        r == same_ignoring_case(utf8_of(a@), utf8_of(b@)),
{
    let x = a.as_bytes();
    let y = b.as_bytes();
    if x.len() != y.len() {
        return false;
    }
    let mut i: usize = 0;
    while i < x.len()
        invariant
            x@.len() == y@.len(),
            x@ == utf8_of(a@),
            y@ == utf8_of(b@),
            i <= x@.len(),
            forall|j: int| 0 <= j < i ==> ascii_lower(#[trigger] x@[j]) == ascii_lower(y@[j]),
        decreases x@.len() - i,
    {
        let p = x[i];
        let q = y[i];
        let lp = if 65 <= p && p <= 90 { p + 32 } else { p };
        let lq = if 65 <= q && q <= 90 { q + 32 } else { q };
        if lp != lq {
            return false;
        }
        i = i + 1;
    }
    true
}

/// Whether the bytes of `suffix` end the bytes of `s`.
pub open spec fn is_suffix(suffix: Seq<u8>, s: Seq<u8>) -> bool {
    suffix.len() <= s.len() && s.subrange(s.len() - suffix.len(), s.len() as int) == suffix
}

/// Whether `s` ends with `suffix`, as `str::ends_with`.
pub fn text_ends_with(s: &str, suffix: &str) -> (r: bool)
    ensures
        r == is_suffix(utf8_of(suffix@), utf8_of(s@)),
{
    let x = s.as_bytes();
    let y = suffix.as_bytes();
    if y.len() > x.len() {
        return false;
    }
    let start = x.len() - y.len();
    let mut i: usize = 0;
    while i < y.len()
        invariant
            start + y@.len() == x@.len(),
            x@ == utf8_of(s@),
            y@ == utf8_of(suffix@),
            x.len() == x@.len(),
            y.len() == y@.len(),
            i <= y@.len(),
            forall|j: int| 0 <= j < i ==> x@[start + j] == y@[j],
        decreases y@.len() - i,
    {
        if x[start + i] != y[i] {
            assert(x@.subrange(start as int, x@.len() as int)[i as int] != y@[i as int]);
            return false;
        }
        i = i + 1;
    }
    assert(x@.subrange(start as int, x@.len() as int) =~= y@);
    true
}

/// Whether the webhook serves a request: a `POST` (in any case) to a URL ending in
/// `/bitpay/webhook`.
pub open spec fn webhook_route(method: Seq<char>, url: Seq<char>) -> bool {
    same_ignoring_case(utf8_of(method), utf8_of("POST"@)) && is_suffix(utf8_of("/bitpay/webhook"@), utf8_of(url))
}

/// Whether the webhook serves a request with this method and URL.
pub fn is_webhook_request(method: &str, url: &str) -> (r: bool)
    ensures
        r == webhook_route(method@, url@),
{
    eq_ignore_case(method, "POST") && text_ends_with(url, "/bitpay/webhook")
}

/// The first header whose name equals `name` up to ASCII case.
pub open spec fn first_header(hs: Seq<(String, String)>, name: Seq<char>, i: int) -> bool {
    &&& 0 <= i < hs.len()
    &&& same_ignoring_case(utf8_of(hs[i].0@), utf8_of(name))
    &&& forall|j: int| 0 <= j < i ==> !same_ignoring_case(utf8_of(#[trigger] hs[j].0@), utf8_of(name))
}

/// The value of the first header named `name`, up to ASCII case.
pub fn header(hs: &Vec<(String, String)>, name: &str) -> (r: Option<String>)
    ensures
        r is None <==> forall|j: int| 0 <= j < hs@.len() ==> !same_ignoring_case(utf8_of(#[trigger] hs@[j].0@), utf8_of(name@)),
        r matches Some(v) ==> exists|i: int| first_header(hs@, name@, i) && v == hs@[i].1,
{
    for i in 0..hs.len()
        invariant
            forall|j: int| 0 <= j < i ==> !same_ignoring_case(utf8_of(#[trigger] hs@[j].0@), utf8_of(name@)),
    {
        if eq_ignore_case(hs[i].0.as_str(), name) {
            assert(first_header(hs@, name@, i as int));
            return Some(hs[i].1.clone());
        }
    }
    None
}

/// The order status that an invoice status names; `new` for any other.
pub open spec fn invoice_status(s: Seq<char>) -> OrderStatus {
    if s == "paid"@ {
        OrderStatus::Paid
    } else if s == "confirmed"@ {
        OrderStatus::Confirmed
    } else if s == "complete"@ {
        OrderStatus::Complete
    } else if s == "expired"@ {
        OrderStatus::Expired
    } else if s == "invalid"@ {
        OrderStatus::Invalid
    } else {
        OrderStatus::New
    }
}

/// Maps an invoice status to an order status.
pub fn status_of_invoice(s: &str) -> (r: OrderStatus)
    ensures
        r == invoice_status(s@),
{
    if crate::text::text_equal(s, "paid") {
        OrderStatus::Paid
    } else if crate::text::text_equal(s, "confirmed") {
        OrderStatus::Confirmed
    } else if crate::text::text_equal(s, "complete") {
        OrderStatus::Complete
    } else if crate::text::text_equal(s, "expired") {
        OrderStatus::Expired
    } else if crate::text::text_equal(s, "invalid") {
        OrderStatus::Invalid
    } else {
        OrderStatus::New
    }
}

/// The status an order moves to when its invoice reports `incoming`, and whether
/// it is shipped now: a confirmed or complete invoice delivers the order once (a
/// delivered order stays as it is); any other status is taken over.
pub open spec fn next_status(current: OrderStatus, incoming: OrderStatus) -> (OrderStatus, bool) {
    if incoming == OrderStatus::Confirmed || incoming == OrderStatus::Complete {
        if current != OrderStatus::Delivered {
            (OrderStatus::Delivered, true)
        } else {
            (current, false)
        }
    } else {
        (incoming, false)
    }
}

/// An order is shipped at most once: a report ships it only when it is not yet
/// delivered, and a delivered order stays delivered under a confirmed or complete
/// report.
pub proof fn lemma_ships_once(current: OrderStatus, incoming: OrderStatus)
    ensures
        next_status(current, incoming).1 ==> current != OrderStatus::Delivered && next_status(current, incoming).0
            == OrderStatus::Delivered,
        current == OrderStatus::Delivered && (incoming == OrderStatus::Confirmed || incoming == OrderStatus::Complete)
            ==> next_status(current, incoming) == (OrderStatus::Delivered, false),
        !next_status(next_status(current, incoming).0, incoming).1,
{
}

/// The status an order moves to when its invoice reports `incoming`, and whether
/// it is shipped now.
pub fn advance_order_status(current: OrderStatus, incoming: OrderStatus) -> (r: (OrderStatus, bool))
    ensures
        r == next_status(current, incoming),
{
    if incoming == OrderStatus::Confirmed || incoming == OrderStatus::Complete {
        if current != OrderStatus::Delivered {
            (OrderStatus::Delivered, true)
        } else {
            (current, false)
        }
    } else {
        (incoming, false)
    }
}

/// Each invoice status name gives the order status of the same name: `paid`,
/// `confirmed`, `complete`, `expired` and `invalid` give Paid, Confirmed,
/// Complete, Expired and Invalid, and every other name gives New.
pub proof fn lemma_invoice_status_names(s: Seq<char>)
    ensures
        invoice_status(s) == OrderStatus::Paid <==> s == "paid"@,
        invoice_status(s) == OrderStatus::Confirmed <==> s == "confirmed"@,
        invoice_status(s) == OrderStatus::Complete <==> s == "complete"@,
        invoice_status(s) == OrderStatus::Expired <==> s == "expired"@,
        invoice_status(s) == OrderStatus::Invalid <==> s == "invalid"@,
        invoice_status(s) == OrderStatus::New <==> s != "paid"@ && s != "confirmed"@ && s != "complete"@ && s
            != "expired"@ && s != "invalid"@,
        invoice_status(s) != OrderStatus::Created && invoice_status(s) != OrderStatus::Delivered,
{
    reveal_strlit("paid");
    reveal_strlit("confirmed");
    reveal_strlit("complete");
    reveal_strlit("expired");
    reveal_strlit("invalid");
    assert("paid"@.len() == 4 && "confirmed"@.len() == 9 && "complete"@.len() == 8);
    assert("expired"@.len() == 7 && "invalid"@.len() == 7 && "expired"@[0] != "invalid"@[0]);
}

/// A confirmed or complete invoice delivers and ships any order not yet
/// delivered; a paid, expired or invalid one ships nothing and sets the order to
/// that status.
pub proof fn lemma_invoice_moves_order(current: OrderStatus, s: Seq<char>)
    ensures
        (s == "confirmed"@ || s == "complete"@) && current != OrderStatus::Delivered ==> next_status(
            current,
            invoice_status(s),
        ) == (OrderStatus::Delivered, true),
        s == "paid"@ ==> next_status(current, invoice_status(s)) == (OrderStatus::Paid, false),
        s == "expired"@ ==> next_status(current, invoice_status(s)) == (OrderStatus::Expired, false),
        s == "invalid"@ ==> next_status(current, invoice_status(s)) == (OrderStatus::Invalid, false),
{
    lemma_invoice_status_names(s);
}

} // verus!
