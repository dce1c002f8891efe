//! Sizes in units, and what stands beside a progress bar.
use vstd::prelude::*;
use crate::text::{decimal, decimal_of, push_text, texts};

verus! {

/// The base of the units.
#[derive(Debug, Clone, Copy, PartialEq, Eq, Structural)]
pub enum NumSys {
    /// Powers of 1024.
    Binary,
    /// Powers of 1000.
    Decimal,
}

/// How sizes are printed.
#[derive(Debug, Clone, Copy, PartialEq, Eq, Structural)]
pub struct UnitStr {
    pub precision: usize,
    pub base: NumSys,
}

/// A size for a reader.
#[derive(Debug)]
pub enum Amount {
    /// So many bytes, as a text.
    Bytes(String),
    /// The quotient by the divisor, in the unit.
    Scaled { divisor: u64, unit: &'static str },
}

/// The largest unit that a size exceeds, with its size in bytes.
pub open spec fn unit_of(base: NumSys, val: u64) -> Option<(u64, Seq<char>)> {
    match base {
        NumSys::Binary => if val > 0x100_0000_0000 {
            Some((0x100_0000_0000, "TiB"@))
        } else if val > 0x4000_0000 {
            Some((0x4000_0000, "GiB"@))
        } else if val > 0x10_0000 {
            Some((0x10_0000, "MiB"@))
        } else if val > 0x400 {
            Some((0x400, "KiB"@))
        } else {
            None
        },
        NumSys::Decimal => if val > 1_000_000_000_000 {
            Some((1_000_000_000_000, "TB"@))
        } else if val > 1_000_000_000 {
            Some((1_000_000_000, "GB"@))
        } else if val > 1_000_000 {
            Some((1_000_000, "MB"@))
        } else if val > 1_000 {
            Some((1_000, "KB"@))
        } else {
            None
        },
    }
}

impl UnitStr {
    /// Sizes with so many digits behind the point.
    pub fn new(precision: usize, base: NumSys) -> (r: UnitStr)
        ensures
            r.precision == precision,
            r.base == base,
    {
        UnitStr { precision, base }
    }

    /// The unit in which a size is printed. Small sizes are printed in bytes.
    pub fn amount(&self, val: u64) -> (r: Amount)
        ensures
            match unit_of(self.base, val) {
                Some((size, name)) => r is Scaled && r->divisor == size && r->unit@ == name,
                None => r is Bytes && r->Bytes_0@ == decimal(val as nat) + " B"@,
            },
    {
        match self.base {
            NumSys::Binary => {
                if val > 0x100_0000_0000 {
                    return Amount::Scaled { divisor: 0x100_0000_0000, unit: "TiB" };
                }
                if val > 0x4000_0000 {
                    return Amount::Scaled { divisor: 0x4000_0000, unit: "GiB" };
                }
                if val > 0x10_0000 {
                    return Amount::Scaled { divisor: 0x10_0000, unit: "MiB" };
                }
                if val > 0x400 {
                    return Amount::Scaled { divisor: 0x400, unit: "KiB" };
                }
            },
            NumSys::Decimal => {
                if val > 1_000_000_000_000 {
                    return Amount::Scaled { divisor: 1_000_000_000_000, unit: "TB" };
                }
                if val > 1_000_000_000 {
                    return Amount::Scaled { divisor: 1_000_000_000, unit: "GB" };
                }
                if val > 1_000_000 {
                    return Amount::Scaled { divisor: 1_000_000, unit: "MB" };
                }
                if val > 1_000 {
                    return Amount::Scaled { divisor: 1_000, unit: "KB" };
                }
            },
        }
        let mut text = decimal_of(val as u128);
        text.append(" B");
        Amount::Bytes(text)
    }

    /// A size in its unit. `quotient` is the size divided by that of the unit,
    /// with as many digits as the precision asks for.
    pub fn str(&self, val: u64, quotient: &str) -> (r: String)
        ensures
            r@ == match unit_of(self.base, val) {
                Some((_, name)) => quotient@ + " "@ + name,
                None => decimal(val as nat) + " B"@,
            },
    {
        match self.amount(val) {
            Amount::Bytes(text) => text,
            Amount::Scaled { divisor: _, unit } => {
                let mut r = quotient.to_owned();
                r.append(" ");
                r.append(unit);
                r
            },
        }
    }
}

/// A size is printed in a unit that it exceeds, and of those in the largest.
pub proof fn law_unit_fits(base: NumSys, val: u64)
    ensures
        match unit_of(base, val) {
            Some((size, _)) => size < val && (base is Binary ==> size < 0x100_0000_0000 ==> val
                <= size * 1024) && (base is Decimal ==> size < 1_000_000_000_000 ==> val <= size
                * 1000),
            None => val <= 1024,
        },
{
}

/// The parts of a message, the first of which stands out. Without a message
/// the program is at work.
pub open spec fn span_texts(msg: Seq<Seq<char>>) -> Seq<Seq<char>> {
    if msg.len() == 0 {
        seq!["Working..."@]
    } else {
        msg
    }
}

/// The parts of a message. The first stands out.
pub fn spans(msg: &Vec<String>) -> (r: Vec<String>)
    ensures
        texts(r@) == span_texts(texts(msg@)),
{
    let mut r: Vec<String> = Vec::new();
    assert(texts(msg@).len() == msg@.len());
    if msg.len() == 0 {
        r.push("Working...".to_owned());
        assert(texts(r@) =~= seq!["Working..."@]);
        return r;
    }
    let mut i: usize = 0;
    assert(texts(r@) =~= texts(msg@).take(0));
    while i < msg.len()
        invariant
            i <= msg@.len(),
            texts(r@) == texts(msg@).take(i as int),
        decreases msg@.len() - i,
    {
        push_text(&mut r, msg[i].clone());
        assert(texts(msg@).take(i + 1) =~= texts(msg@).take(i as int).push(msg@[i as int]@));
        i = i + 1;
    }
    assert(texts(msg@).take(i as int) =~= texts(msg@));
    r
}

/// What stands before the bar: the time that is left, or that the program is
/// at work.
pub fn label(position: u64, length: u64, eta: &str) -> (r: Vec<String>)
    ensures
        texts(r@) == if position < length {
            seq!["Time Remaining:"@, " "@ + eta@]
        } else {
            seq!["Working..."@]
        },
{
    if position < length {
        let mut time = " ".to_owned();
        time.append(eta);
        let r = vec!["Time Remaining:".to_owned(), time];
        assert(texts(r@) =~= seq!["Time Remaining:"@, " "@ + eta@]);
        r
    } else {
        let r = vec!["Working...".to_owned()];
        assert(texts(r@) =~= seq!["Working..."@]);
        r
    }
}

/// How many bytes came in a second.
pub fn average(length: u64, elapsed: u64) -> (r: u64)
    requires
        elapsed > 0,
    ensures
        r == length / elapsed,
{
    length / elapsed
}

/// What is said when all is fetched. `total`, `time` and `rate` are the length,
/// the time that it took and the average, for a reader.
pub fn finished_string(length: u64, total: &str, time: &str, rate: &str) -> (r: String)
    ensures
        r@ == if length > 1 {
            "Fetched "@ + total@ + " in "@ + time@ + " ("@ + rate@ + "/s)"@
        } else {
            "Nothing to fetch"@
        },
{
    // I've seen this erroneously as 1 before.
    if length > 1 {
        let mut r = "Fetched ".to_owned();
        r.append(total);
        r.append(" in ");
        r.append(time);
        r.append(" (");
        r.append(rate);
        r.append("/s)");
        r
    } else {
        "Nothing to fetch".to_owned()
    }
}

/// A number of bytes is told in the largest unit that it exceeds, or in bytes,
/// and the unit belongs to the system.
pub proof fn law_units(unit: &UnitStr, val: u64, quotient: &str, r: Amount, text: String)
    requires
        call_ensures(UnitStr::amount, (unit, val), r),
        call_ensures(UnitStr::str, (unit, val, quotient), text),
    ensures
        unit.base is Binary ==> (r is Bytes <==> val <= 1024),
        unit.base is Decimal ==> (r is Bytes <==> val <= 1000),
        r is Bytes ==> r->Bytes_0@ == decimal(val as nat) + " B"@ && text@ == decimal(val as nat)
            + " B"@,
        r is Scaled ==> text@ == quotient@ + " "@ + r->unit@,
        r is Scaled && unit.base is Binary ==> {
            ||| r->divisor == 1024 && r->unit@ == "KiB"@ && val <= 1024 * 1024
            ||| r->divisor == 1024 * 1024 && r->unit@ == "MiB"@ && 1024 * 1024 < val <= 1024 * 1024
                * 1024
            ||| r->divisor == 1024 * 1024 * 1024 && r->unit@ == "GiB"@ && 1024 * 1024 * 1024 < val
                <= 1024 * 1024 * 1024 * 1024
            ||| r->divisor == 1024 * 1024 * 1024 * 1024 && r->unit@ == "TiB"@ && val > 1024 * 1024
                * 1024 * 1024
        },
        r is Scaled && unit.base is Decimal ==> {
            ||| r->divisor == 1000 && r->unit@ == "KB"@ && val <= 1000 * 1000
            ||| r->divisor == 1000 * 1000 && r->unit@ == "MB"@ && 1000 * 1000 < val <= 1000 * 1000
                * 1000
            ||| r->divisor == 1000 * 1000 * 1000 && r->unit@ == "GB"@ && 1000 * 1000 * 1000 < val
                <= 1000 * 1000 * 1000 * 1000
            ||| r->divisor == 1000 * 1000 * 1000 * 1000 && r->unit@ == "TB"@ && val > 1000 * 1000
                * 1000 * 1000
        },
{
}

/// The bar shows what it is given, and that work goes on where it is given
/// nothing or nothing is left to wait for.
pub proof fn law_beside_the_bar(
    msg: &Vec<String>,
    shown: Vec<String>,
    position: u64,
    length: u64,
    eta: &str,
    label_texts: Vec<String>,
)
    requires
        call_ensures(spans, (msg,), shown),
        call_ensures(label, (position, length, eta), label_texts),
    ensures
        msg@.len() > 0 ==> texts(shown@) == texts(msg@),
        msg@.len() == 0 ==> texts(shown@) == seq!["Working..."@],
        position < length ==> texts(label_texts@) == seq!["Time Remaining:"@, " "@ + eta@],
        position >= length ==> texts(label_texts@) == seq!["Working..."@],
{
    assert(texts(msg@).len() == msg@.len());
}

/// What was fetched is told with its size, time and rate, if anything was.
pub proof fn law_finished(length: u64, total: &str, time: &str, rate: &str, r: String)
    requires
        call_ensures(finished_string, (length, total, time, rate), r),
    ensures
        length > 1 ==> r@ == "Fetched "@ + total@ + " in "@ + time@ + " ("@ + rate@ + "/s)"@,
        length <= 1 ==> r@ == "Nothing to fetch"@,
{
}

/// The rate is what is fetched in a second, without the rest.
pub proof fn law_average(length: u64, elapsed: u64, r: u64)
    requires
        elapsed > 0,
        call_ensures(average, (length, elapsed), r),
    ensures
        r * elapsed <= length < (r + 1) * elapsed,
{
    vstd::arithmetic::div_mod::lemma_fundamental_div_mod(length as int, elapsed as int);
    assert((r + 1) * elapsed == r * elapsed + elapsed) by (nonlinear_arith);
    assert(elapsed * (length as int / elapsed as int) == r * elapsed) by (nonlinear_arith)
        requires
            r == length / elapsed,
            elapsed > 0,
    ;
}

} // verus!
