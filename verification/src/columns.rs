//! How wide each column of the list must be to hold its label and cells.

use vstd::prelude::*;
use vstd::utf8::encode_utf8;
use crate::app::App;
use crate::network::{records, Record};

verus! {

/// The columns of the list, left to right.
pub enum Column {
    Ssid,
    Signal,
    Security,
    Rate,
    Bars,
}

/// The width of a column's label: `SSID`, `Signal`, `Security`, `Rate`,
/// `Bars`.
pub open spec fn label_width(column: Column) -> usize {
    match column {
        Column::Ssid => 4,
        Column::Signal => 6,
        Column::Security => 8,
        Column::Rate => 4,
        Column::Bars => 4,
    }
}

/// The width of a text: the length of its UTF-8 encoding.
pub open spec fn text_width(text: Seq<char>) -> usize {
    encode_utf8(text).len() as usize
}

/// The width of a signal strength written in decimal.
pub open spec fn signal_width(signal: nat) -> usize {
    if signal >= 100 {
        3
    } else if signal >= 10 {
        2
    } else {
        1
    }
}

/// The width of the cell that a record has in a column.
pub open spec fn cell_width(record: Record, column: Column) -> usize {
    match column {
        Column::Ssid => text_width(record.ssid),
        Column::Signal => signal_width(record.signal),
        Column::Security => text_width(record.security),
        Column::Rate => text_width(record.rate),
        Column::Bars => text_width(record.bars),
    }
}

/// The width of a column: that of its label or of its widest cell,
/// whichever is greater.
pub open spec fn column_width(list: Seq<Record>, column: Column) -> usize
    decreases list.len(),
{
    if list.len() == 0 {
        label_width(column)
    } else {
        let before = column_width(list.drop_last(), column);
        let cell = cell_width(list.last(), column);
        if cell > before {
            cell
        } else {
            before
        }
    }
}

/// A column is as wide as its label or one of its cells, and no label or
/// cell is wider.
pub proof fn lemma_column_width_fits(list: Seq<Record>, column: Column)
    ensures
        column_width(list, column) >= label_width(column),
        forall|i: int|
            0 <= i < list.len() ==> column_width(list, column) >= cell_width(
                #[trigger] list[i],
                column,
            ),
        column_width(list, column) == label_width(column) || exists|i: int|
            0 <= i < list.len() && column_width(list, column) == cell_width(
                #[trigger] list[i],
                column,
            ),
    decreases list.len(),
{
    if list.len() > 0 {
        let shorter = list.drop_last();
        lemma_column_width_fits(shorter, column);
        assert forall|i: int| 0 <= i < list.len() implies column_width(list, column)
            >= cell_width(#[trigger] list[i], column) by {
            if i < shorter.len() {
                assert(shorter[i] == list[i]);
            }
        }
        if column_width(list, column) != label_width(column) {
            if cell_width(list.last(), column) > column_width(shorter, column) {
                assert(column_width(list, column) == cell_width(list[list.len() - 1], column));
            } else {
                let i = choose|i: int|
                    0 <= i < shorter.len() && column_width(shorter, column) == cell_width(
                        #[trigger] shorter[i],
                        column,
                    );
                assert(shorter[i] == list[i]);
            }
        }
    }
}

/// The greater of two widths.
fn wider(a: usize, b: usize) -> (w: usize)
    ensures
        w == if b > a {
            b
        } else {
            a
        },
{
    if b > a {
        b
    } else {
        a
    }
}

/// The width of a signal strength written in decimal.
fn signal_digits(signal: u8) -> (w: usize)
    ensures
        w == signal_width(signal as nat),
{
    if signal >= 100 {
        3
    } else if signal >= 10 {
        2
    } else {
        1
    }
}

impl App {
    /// The widths of the five columns, left to right, for the inventory as
    /// it stands.
    pub fn calculate_column_widths(&self) -> (widths: (usize, usize, usize, usize, usize))
        ensures
            widths.0 == column_width(self@.networks, Column::Ssid),
            widths.1 == column_width(self@.networks, Column::Signal),
            widths.2 == column_width(self@.networks, Column::Security),
            widths.3 == column_width(self@.networks, Column::Rate),
            widths.4 == column_width(self@.networks, Column::Bars),
    {
        let networks = self.networks();
        let ghost list = records(networks@);
        let mut ssid_width: usize = 4;
        let mut signal_width: usize = 6;
        let mut security_width: usize = 8;
        let mut rate_width: usize = 4;
        let mut bars_width: usize = 4;
        let mut i: usize = 0;
        while i < networks.len()
            invariant
                0 <= i <= networks.len(),
                list == records(networks@),
                ssid_width == column_width(list.take(i as int), Column::Ssid),
                signal_width == column_width(list.take(i as int), Column::Signal),
                security_width == column_width(list.take(i as int), Column::Security),
                rate_width == column_width(list.take(i as int), Column::Rate),
                bars_width == column_width(list.take(i as int), Column::Bars),
            decreases networks.len() - i,
        {
            let network = &networks[i];
            proof {
                assert(list.take(i + 1).drop_last() =~= list.take(i as int));
                assert(list.take(i + 1).last() == network@);
            }
            ssid_width = wider(ssid_width, network.ssid.as_str().len());
            signal_width = wider(signal_width, signal_digits(network.signal));
            security_width = wider(security_width, network.security.as_str().len());
            rate_width = wider(rate_width, network.rate.as_str().len());
            bars_width = wider(bars_width, network.bars.as_str().len());
            i += 1;
        }
        proof {
            assert(list.take(networks.len() as int) =~= list);
        }
        (ssid_width, signal_width, security_width, rate_width, bars_width)
    }
}

} // verus!
