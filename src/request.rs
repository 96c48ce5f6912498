use vstd::prelude::*;

verus! {

/// New content for a ledger file.
#[derive(Debug)]
pub struct FileUpdateRequest {
    pub content: String,
}

/// The width of the buckets of a statistic graph.
#[derive(Debug, Clone, Copy, PartialEq, Eq, Structural)]
pub enum StatisticInterval {
    Day,
    Week,
    Month,
}

/// The flag of a transaction to create.
#[derive(Debug, Clone, Copy, PartialEq, Eq, Structural)]
pub enum FlagRequest {
    Okay,
    Warning,
    BalancePad,
    BalanceCheck,
    Custom(char),
}

/// A key and value of metadata.
#[derive(Debug)]
pub struct MetaRequest {
    pub key: String,
    pub value: String,
}

/// The month of a budget listing; what is absent is taken from the current date.
#[derive(Debug, Clone, Copy)]
pub struct BudgetListRequest {
    pub month: Option<u32>,
    pub year: Option<u32>,
}

impl BudgetListRequest {
    /// The month as the number `YYYYMM`, where the current date is in year `now_year`, month
    /// `now_month`.
    pub fn as_interval_from(&self, now_year: u32, now_month: u32) -> (r: u32)
        requires
            unwrap_or_u32(self.year, now_year) * 100 + unwrap_or_u32(self.month, now_month) <= u32::MAX,
        ensures
            r == unwrap_or_u32(self.year, now_year) * 100 + unwrap_or_u32(self.month, now_month),
    {
        let y: u32 = match self.year {
            Some(v) => v,
            None => now_year,
        };
        let m: u32 = match self.month {
            Some(v) => v,
            None => now_month,
        };
        y * 100 + m
    }
}

/// Paging and filtering parameters of a journal listing.
pub struct JournalRequest {
    pub page: Option<u32>,
    pub size: Option<u32>,
    pub keyword: Option<String>,
    pub tags: Option<std::collections::HashSet<String>>,
    pub links: Option<std::collections::HashSet<String>>,
}

pub open spec fn unwrap_or_u32(o: Option<u32>, d: u32) -> u32 {
    match o {
        Some(v) => v,
        None => d,
    }
}

/// The page asked for, counted from one; an absent or zero page is the first.
pub open spec fn page_of(page: Option<u32>) -> u32 {
    if unwrap_or_u32(page, 1) >= 1 { unwrap_or_u32(page, 1) } else { 1 }
}

impl JournalRequest {
    pub open spec fn spec_page(&self) -> u32 {
        page_of(self.page)
    }

    pub open spec fn spec_limit(&self) -> u32 {
        unwrap_or_u32(self.size, 100)
    }

    pub fn page(&self) -> (r: u32)
        ensures
            r == self.spec_page(),
            r >= 1,
    {
        let p: u32 = match self.page {
            Some(v) => v,
            None => 1,
        };
        if p >= 1 { p } else { 1 }
    }

    pub fn offset(&self) -> (r: u32)
        requires
            (self.spec_page() - 1) * self.spec_limit() <= u32::MAX,
        ensures
            r == (self.spec_page() - 1) * self.spec_limit(),
    {
        let page = self.page();
        let limit = self.limit();
        (page - 1) * limit
    }

    pub fn limit(&self) -> (r: u32)
        ensures
            r == self.spec_limit(),
    {
        match self.size {
            Some(v) => v,
            None => 100,
        }
    }
}

} // verus!
