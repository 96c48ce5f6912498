use vstd::prelude::*;

verus! {

/// A calendar date of a ledger directive.
#[derive(Debug, Clone, Copy, PartialEq, Eq, Structural)]
pub struct LedgerDate {
    pub year: u32,
    pub month: u32,
    pub day: u32,
}

pub open spec fn is_leap(y: int) -> bool {
    (y % 4 == 0 && y % 100 != 0) || y % 400 == 0
}

pub open spec fn days_in_month(y: int, m: int) -> int {
    if m == 2 {
        if is_leap(y) { 29 } else { 28 }
    } else if m == 4 || m == 6 || m == 9 || m == 11 {
        30
    } else {
        31
    }
}

/// A date with a four-digit year, a month of the year and a day of that month.
pub open spec fn valid_date(y: int, m: int, d: int) -> bool {
    0 <= y <= 9999 && 1 <= m <= 12 && 1 <= d <= days_in_month(y, m)
}

impl LedgerDate {
    pub open spec fn wf(&self) -> bool {
        valid_date(self.year as int, self.month as int, self.day as int)
    }

    /// The date, if it exists in the calendar.
    pub fn new(year: u32, month: u32, day: u32) -> (r: Option<LedgerDate>)
        ensures
            r is Some <==> valid_date(year as int, month as int, day as int),
            r is Some ==> r->Some_0 == (LedgerDate { year, month, day }),
    {
        if year > 9999 || month < 1 || month > 12 || day < 1 {
            return None;
        }
        let leap = (year % 4 == 0 && year % 100 != 0) || year % 400 == 0;
        let last: u32 = if month == 2 {
            if leap { 29 } else { 28 }
        } else if month == 4 || month == 6 || month == 9 || month == 11 {
            30
        } else {
            31
        };
        if day > last {
            None
        } else {
            Some(LedgerDate { year, month, day })
        }
    }
}

/// What a directive says: an inclusion of another file, or any other entry in its written form.
#[derive(Debug, Clone, PartialEq, Eq)]
pub enum DirectiveBody {
    Include(String),
    Entry(String),
}

/// One unit of ledger content, with the date it carries if any.
#[derive(Debug, Clone, PartialEq, Eq)]
pub struct Directive {
    pub date: Option<LedgerDate>,
    pub body: DirectiveBody,
}

/// The written form of an inclusion of the file at path `p`.
pub open spec fn inclusion_text(p: Seq<char>) -> Seq<char> {
    seq!['i', 'n', 'c', 'l', 'u', 'd', 'e', ' ', '"'] + p + seq!['"']
}

/// The text of a directive as it is written into a file.
pub open spec fn serialized(d: Directive) -> Seq<char> {
    match d.body {
        DirectiveBody::Include(p) => inclusion_text(p@),
        DirectiveBody::Entry(t) => t@,
    }
}

impl Directive {
    /// A copy of this directive.
    pub fn copy(&self) -> (r: Directive)
        ensures
            r == *self,
    {
        let body = match &self.body {
            DirectiveBody::Include(p) => DirectiveBody::Include(p.clone()),
            DirectiveBody::Entry(t) => DirectiveBody::Entry(t.clone()),
        };
        Directive { date: self.date, body }
    }

    /// An undated inclusion of the file at `path`.
    pub fn inclusion(path: String) -> (r: Directive)
        ensures
            r.date is None,
            r.body == DirectiveBody::Include(path),
    {
        Directive { date: None, body: DirectiveBody::Include(path) }
    }

    /// The include target, if this is an inclusion.
    pub fn include_target(&self) -> (r: Option<&String>)
        ensures
            match self.body {
                DirectiveBody::Include(p) => r == Some(&p),
                DirectiveBody::Entry(_) => r is None,
            },
    {
        match &self.body {
            DirectiveBody::Include(p) => Some(p),
            DirectiveBody::Entry(_) => None,
        }
    }

    /// The directive written out as text.
    pub fn serialize(&self) -> (r: String)
        ensures
            r@ == serialized(*self),
    {
        match &self.body {
            DirectiveBody::Include(p) => {
                let mut s = String::from_str("inc");
                s.append("lude \"");
                s.append(p.as_str());
                s.append("\"");
                proof {
                    reveal_strlit("inc");
                    reveal_strlit("lude \"");
                    reveal_strlit("\"");
                }
                assert(s@ =~= serialized(*self));
                s
            },
            DirectiveBody::Entry(t) => t.clone(),
        }
    }
}

} // verus!
