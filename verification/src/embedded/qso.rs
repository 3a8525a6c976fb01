//! The state of a contact.

use vstd::prelude::*;

verus! {

/// Steps of a contact.
#[derive(Clone, Copy, Debug, PartialEq, Eq, Structural)]
pub enum QsoState {
    Idle,
    Calling,
    Report,
    Final,
    Done,
}

/// A contact in progress.
pub struct QsoManager {
    pub state: QsoState,
    pub my_call: heapless::String<11>,
    pub my_grid: heapless::String<6>,
    pub dx_call: Option<heapless::String<11>>,
    pub dx_grid: Option<heapless::String<6>>,
    pub rx_report: Option<i8>,
    pub tx_report: Option<i8>,
    pub retries: u8,
}

/// Bytes of a call sign.
pub uninterp spec fn call_bytes(call: heapless::String<11>) -> Seq<u8>;

/// `heapless::String::new`: the string is empty.
#[verifier::external_body]
fn call_new() -> (call: heapless::String<11>)
    ensures
        call_bytes(call) == Seq::<u8>::empty(),
{
    heapless::String::new()
}

/// Bytes of a locator.
pub uninterp spec fn grid_bytes(grid: heapless::String<6>) -> Seq<u8>;

/// `heapless::String::new`: the string is empty.
#[verifier::external_body]
fn grid_new() -> (grid: heapless::String<6>)
    ensures
        grid_bytes(grid) == Seq::<u8>::empty(),
{
    heapless::String::new()
}

impl QsoManager {
    /// No contact, and nothing known of either side.
    pub fn new() -> (q: QsoManager)
        ensures
            q.state == QsoState::Idle,
            call_bytes(q.my_call) == Seq::<u8>::empty(),
            grid_bytes(q.my_grid) == Seq::<u8>::empty(),
            q.dx_call is None,
            q.dx_grid is None,
            q.rx_report is None,
            q.tx_report is None,
            q.retries == 0,
    {
        QsoManager {
            state: QsoState::Idle,
            my_call: call_new(),
            my_grid: grid_new(),
            dx_call: None,
            dx_grid: None,
            rx_report: None,
            tx_report: None,
            retries: 0,
        }
    }
}

} // verus!
