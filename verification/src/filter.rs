//! Selection of trace records by time, address, latency, queue depth and
//! CPU.  A bound of zero means "no bound"; a filter whose bounds are all
//! zero keeps everything.  Times and latencies are in nanoseconds.
use vstd::prelude::*;
use std::collections::HashSet;
use crate::models::{Block, UFS, UFSCUSTOM};
use crate::chunk::{trim_chars, trimmed};
use crate::text::{chars_of, parse_unsigned, parse_unsigned_exec};

verus! {

broadcast use {vstd::std_specs::hash::group_hash_axioms, vstd::string::group_string_axioms};

pub struct FilterOptions {
    pub start_time: u64,
    pub end_time: u64,
    pub start_sector: u64,
    pub end_sector: u64,
    pub min_dtoc: u64,
    pub max_dtoc: u64,
    pub min_ctoc: u64,
    pub max_ctoc: u64,
    pub min_ctod: u64,
    pub max_ctod: u64,
    pub min_qd: u32,
    pub max_qd: u32,
    pub cpu_list: Vec<u32>,
    /// Set of `cpu_list`, built once for fast lookups.
    pub cpu_set: Option<HashSet<u32>>,
}

impl Default for FilterOptions {
    fn default() -> (f: Self)
        ensures
            f.start_time == 0 && f.end_time == 0 && f.start_sector == 0 && f.end_sector == 0,
            f.min_dtoc == 0 && f.max_dtoc == 0 && f.min_ctoc == 0 && f.max_ctoc == 0,
            f.min_ctod == 0 && f.max_ctod == 0 && f.min_qd == 0 && f.max_qd == 0,
            f.cpu_list@.len() == 0,
            f.cpu_set is None,
    {
        FilterOptions {
            start_time: 0,
            end_time: 0,
            start_sector: 0,
            end_sector: 0,
            min_dtoc: 0,
            max_dtoc: 0,
            min_ctoc: 0,
            max_ctoc: 0,
            min_ctod: 0,
            max_ctod: 0,
            min_qd: 0,
            max_qd: 0,
            cpu_list: Vec::new(),
            cpu_set: None,
        }
    }
}

pub open spec fn time_active(f: &FilterOptions) -> bool {
    f.end_time > f.start_time
}

pub open spec fn sector_active(f: &FilterOptions) -> bool {
    f.start_sector > 0 || f.end_sector > 0
}

pub open spec fn dtoc_active(f: &FilterOptions) -> bool {
    f.min_dtoc > 0 || f.max_dtoc > 0
}

pub open spec fn ctoc_active(f: &FilterOptions) -> bool {
    f.min_ctoc > 0 || f.max_ctoc > 0
}

pub open spec fn ctod_active(f: &FilterOptions) -> bool {
    f.min_ctod > 0 || f.max_ctod > 0
}

pub open spec fn qd_active(f: &FilterOptions) -> bool {
    f.min_qd > 0 || f.max_qd > 0
}

pub open spec fn cpu_active(f: &FilterOptions) -> bool {
    f.cpu_list@.len() > 0
}

pub open spec fn any_active(f: &FilterOptions) -> bool {
    time_active(f) || sector_active(f) || dtoc_active(f) || ctoc_active(f) || ctod_active(f)
        || qd_active(f) || cpu_active(f)
}

/// A moment against the time window.
pub open spec fn time_single_ok(t: u64, f: &FilterOptions) -> bool {
    if !time_active(f) {
        true
    } else if f.start_time > 0 && !(f.end_time > 0) {
        t >= f.start_time
    } else if !(f.start_time > 0) && f.end_time > 0 {
        t <= f.end_time
    } else if f.start_time > 0 && f.end_time > 0 {
        f.start_time <= t <= f.end_time
    } else {
        true
    }
}

/// An interval of time against the time window: they overlap.
pub open spec fn time_range_ok(s: u64, e: u64, f: &FilterOptions) -> bool {
    if !time_active(f) {
        true
    } else if f.start_time > 0 && !(f.end_time > 0) {
        e >= f.start_time
    } else if !(f.start_time > 0) && f.end_time > 0 {
        s <= f.end_time
    } else if f.start_time > 0 && f.end_time > 0 {
        !(e < f.start_time || s > f.end_time)
    } else {
        true
    }
}

/// An address range against the address window: they overlap.
pub open spec fn sector_range_ok(s: int, e: int, f: &FilterOptions) -> bool {
    if !sector_active(f) {
        true
    } else if f.start_sector > 0 && !(f.end_sector > 0) {
        e >= f.start_sector
    } else if !(f.start_sector > 0) && f.end_sector > 0 {
        s <= f.end_sector
    } else if f.start_sector > 0 && f.end_sector > 0 {
        !(e < f.start_sector || s > f.end_sector)
    } else {
        true
    }
}

/// A latency against `min..=max`, either bound zero meaning none; a bound
/// above only also refuses negative values.
pub open spec fn latency_ok(v: int, min: u64, max: u64) -> bool {
    if min > 0 && !(max > 0) {
        v >= min
    } else if !(min > 0) && max > 0 {
        v >= 0 && v <= max
    } else if min > 0 && max > 0 {
        v >= min && v <= max
    } else {
        true
    }
}

/// A count against `min..=max`, either bound zero meaning none.
pub open spec fn u32_range_ok(v: u32, min: u32, max: u32) -> bool {
    if min > 0 && !(max > 0) {
        v >= min
    } else if !(min > 0) && max > 0 {
        v <= max
    } else if min > 0 && max > 0 {
        v >= min && v <= max
    } else {
        true
    }
}

/// The CPU is one of the wanted ones (looked up in the set when built).
pub open spec fn cpu_ok(cpu: u32, f: &FilterOptions) -> bool {
    match f.cpu_set {
        Some(set) => set@.contains(cpu),
        None => f.cpu_list@.contains(cpu),
    }
}

/// A record that filters can look at.
pub trait Filterable: Sized {
    spec fn time_matches(&self, f: &FilterOptions) -> bool;

    spec fn sector_matches(&self, f: &FilterOptions) -> bool;

    /// The end of the record's address range can be computed.
    spec fn sector_fits(&self) -> bool;

    spec fn dtoc_of(&self) -> int;

    spec fn ctoc_of(&self) -> int;

    spec fn ctod_of(&self) -> int;

    spec fn qd_of(&self) -> u32;

    spec fn cpu_of(&self) -> Option<u32>;

    /// A time or address window that is not set keeps every record.
    proof fn inactive_windows_match(&self, f: &FilterOptions)
        ensures
            !time_active(f) ==> self.time_matches(f),
            !sector_active(f) ==> self.sector_matches(f),
    ;

    fn matches_time(&self, filter: &FilterOptions) -> (b: bool)
        ensures
            b == self.time_matches(filter),
    ;

    fn matches_sector(&self, filter: &FilterOptions) -> (b: bool)
        requires
            self.sector_fits(),
        ensures
            b == self.sector_matches(filter),
    ;

    fn dtoc(&self) -> (r: i128)
        ensures
            r == self.dtoc_of(),
    ;

    fn ctoc(&self) -> (r: u64)
        ensures
            r == self.ctoc_of(),
    ;

    fn ctod(&self) -> (r: u64)
        ensures
            r == self.ctod_of(),
    ;

    fn qd(&self) -> (r: u32)
        ensures
            r == self.qd_of(),
    ;

    fn cpu(&self) -> (r: Option<u32>)
        ensures
            r == self.cpu_of(),
    ;
}

fn match_time_single(t: u64, f: &FilterOptions) -> (b: bool)
    ensures
        b == time_single_ok(t, f),
{
    if !(f.end_time > f.start_time) {
        return true;
    }
    let start_check = f.start_time > 0;
    let end_check = f.end_time > 0;
    if start_check && !end_check {
        t >= f.start_time
    } else if !start_check && end_check {
        t <= f.end_time
    } else if start_check && end_check {
        t >= f.start_time && t <= f.end_time
    } else {
        true
    }
}

fn match_time_range(s: u64, e: u64, f: &FilterOptions) -> (b: bool)
    ensures
        b == time_range_ok(s, e, f),
{
    if !(f.end_time > f.start_time) {
        return true;
    }
    let start_check = f.start_time > 0;
    let end_check = f.end_time > 0;
    if start_check && !end_check {
        e >= f.start_time
    } else if !start_check && end_check {
        s <= f.end_time
    } else if start_check && end_check {
        !(e < f.start_time || s > f.end_time)
    } else {
        true
    }
}

fn match_sector_range(s: u64, e: u64, f: &FilterOptions) -> (b: bool)
    ensures
        b == sector_range_ok(s as int, e as int, f),
{
    if !(f.start_sector > 0 || f.end_sector > 0) {
        return true;
    }
    let start_check = f.start_sector > 0;
    let end_check = f.end_sector > 0;
    if start_check && !end_check {
        e >= f.start_sector
    } else if !start_check && end_check {
        s <= f.end_sector
    } else if start_check && end_check {
        !(e < f.start_sector || s > f.end_sector)
    } else {
        true
    }
}

fn match_range_latency(v: i128, min: u64, max: u64) -> (b: bool)
    ensures
        b == latency_ok(v as int, min, max),
{
    let min_check = min > 0;
    let max_check = max > 0;
    if min_check && !max_check {
        v >= min as i128
    } else if !min_check && max_check {
        v >= 0 && v <= max as i128
    } else if min_check && max_check {
        v >= min as i128 && v <= max as i128
    } else {
        true
    }
}

/// `value` within `min..=max`, either bound zero meaning none.
pub fn match_range_u32(value: u32, min: u32, max: u32) -> (b: bool)
    ensures
        b == u32_range_ok(value, min, max),
{
    let min_check = min > 0;
    let max_check = max > 0;
    if min_check && !max_check {
        value >= min
    } else if !min_check && max_check {
        value <= max
    } else if min_check && max_check {
        value >= min && value <= max
    } else {
        true
    }
}

impl Filterable for Block {
    proof fn inactive_windows_match(&self, f: &FilterOptions) {
    }

    open spec fn time_matches(&self, f: &FilterOptions) -> bool {
        time_single_ok(self.time, f)
    }

    open spec fn sector_matches(&self, f: &FilterOptions) -> bool {
        sector_range_ok(self.sector as int, self.sector + self.size, f)
    }

    open spec fn sector_fits(&self) -> bool {
        self.sector + self.size <= u64::MAX
    }

    open spec fn dtoc_of(&self) -> int {
        self.dtoc as int
    }

    open spec fn ctoc_of(&self) -> int {
        self.ctoc as int
    }

    open spec fn ctod_of(&self) -> int {
        self.ctod as int
    }

    open spec fn qd_of(&self) -> u32 {
        self.qd
    }

    open spec fn cpu_of(&self) -> Option<u32> {
        Some(self.cpu)
    }

    fn matches_time(&self, filter: &FilterOptions) -> (b: bool) {
        match_time_single(self.time, filter)
    }

    fn matches_sector(&self, filter: &FilterOptions) -> (b: bool) {
        match_sector_range(self.sector, self.sector + self.size as u64, filter)
    }

    fn dtoc(&self) -> (r: i128) {
        self.dtoc as i128
    }

    fn ctoc(&self) -> (r: u64) {
        self.ctoc
    }

    fn ctod(&self) -> (r: u64) {
        self.ctod
    }

    fn qd(&self) -> (r: u32) {
        self.qd
    }

    fn cpu(&self) -> (r: Option<u32>) {
        Some(self.cpu)
    }
}

impl Filterable for UFS {
    proof fn inactive_windows_match(&self, f: &FilterOptions) {
    }

    open spec fn time_matches(&self, f: &FilterOptions) -> bool {
        time_single_ok(self.time, f)
    }

    /// The address range in 4 KiB units: the size (already in units) is
    /// divided by 4096 once more when the end of the range is taken.
    open spec fn sector_matches(&self, f: &FilterOptions) -> bool {
        sector_range_ok(self.lba as int, self.lba + self.size / 4096, f)
    }

    open spec fn sector_fits(&self) -> bool {
        self.lba + self.size / 4096 <= u64::MAX
    }

    open spec fn dtoc_of(&self) -> int {
        self.dtoc as int
    }

    open spec fn ctoc_of(&self) -> int {
        self.ctoc as int
    }

    open spec fn ctod_of(&self) -> int {
        self.ctod as int
    }

    open spec fn qd_of(&self) -> u32 {
        self.qd
    }

    open spec fn cpu_of(&self) -> Option<u32> {
        Some(self.cpu)
    }

    fn matches_time(&self, filter: &FilterOptions) -> (b: bool) {
        match_time_single(self.time, filter)
    }

    fn matches_sector(&self, filter: &FilterOptions) -> (b: bool) {
        match_sector_range(self.lba, self.lba + self.size as u64 / 4096, filter)
    }

    fn dtoc(&self) -> (r: i128) {
        self.dtoc as i128
    }

    fn ctoc(&self) -> (r: u64) {
        self.ctoc
    }

    fn ctod(&self) -> (r: u64) {
        self.ctod
    }

    fn qd(&self) -> (r: u32) {
        self.qd
    }

    fn cpu(&self) -> (r: Option<u32>) {
        Some(self.cpu)
    }
}

impl Filterable for UFSCUSTOM {
    proof fn inactive_windows_match(&self, f: &FilterOptions) {
    }

    open spec fn time_matches(&self, f: &FilterOptions) -> bool {
        time_range_ok(self.start_time, self.end_time, f)
    }

    open spec fn sector_matches(&self, f: &FilterOptions) -> bool {
        sector_range_ok(self.lba as int, self.lba + self.size / 4096, f)
    }

    open spec fn sector_fits(&self) -> bool {
        self.lba + self.size / 4096 <= u64::MAX
    }

    open spec fn dtoc_of(&self) -> int {
        self.dtoc as int
    }

    open spec fn ctoc_of(&self) -> int {
        self.ctoc as int
    }

    open spec fn ctod_of(&self) -> int {
        self.ctod as int
    }

    /// The queue depth at the start of the request.
    open spec fn qd_of(&self) -> u32 {
        self.start_qd
    }

    /// Custom records carry no CPU, so a CPU filter keeps them.
    open spec fn cpu_of(&self) -> Option<u32> {
        None
    }

    fn matches_time(&self, filter: &FilterOptions) -> (b: bool) {
        match_time_range(self.start_time, self.end_time, filter)
    }

    fn matches_sector(&self, filter: &FilterOptions) -> (b: bool) {
        match_sector_range(self.lba, self.lba + self.size as u64 / 4096, filter)
    }

    fn dtoc(&self) -> (r: i128) {
        self.dtoc
    }

    fn ctoc(&self) -> (r: u64) {
        self.ctoc
    }

    fn ctod(&self) -> (r: u64) {
        self.ctod
    }

    fn qd(&self) -> (r: u32) {
        self.start_qd
    }

    fn cpu(&self) -> (r: Option<u32>) {
        None
    }
}

/// Whether a record passes every active filter.
pub open spec fn passes<T: Filterable>(x: T, f: &FilterOptions) -> bool {
    &&& x.time_matches(f)
    &&& x.sector_matches(f)
    &&& (!dtoc_active(f) || latency_ok(x.dtoc_of(), f.min_dtoc, f.max_dtoc))
    &&& (!ctoc_active(f) || latency_ok(x.ctoc_of(), f.min_ctoc, f.max_ctoc))
    &&& (!ctod_active(f) || latency_ok(x.ctod_of(), f.min_ctod, f.max_ctod))
    &&& (!qd_active(f) || u32_range_ok(x.qd_of(), f.min_qd, f.max_qd))
    &&& (!cpu_active(f) || match x.cpu_of() {
        Some(c) => cpu_ok(c, f),
        None => true,
    })
}

/// The records on which the address check is computed can hold their end
/// address (it is computed for each record that passes the time check).
pub open spec fn sectors_computable<T: Filterable>(data: Seq<T>, f: &FilterOptions) -> bool {
    any_active(f) ==> forall|i: int|
        0 <= i < data.len() && (#[trigger] data[i]).time_matches(f) ==> data[i].sector_fits()
}

impl FilterOptions {
    pub fn is_time_filter_active(&self) -> (b: bool)
        ensures
            b == time_active(self),
    {
        self.end_time > self.start_time
    }

    pub fn is_sector_filter_active(&self) -> (b: bool)
        ensures
            b == sector_active(self),
    {
        self.start_sector > 0 || self.end_sector > 0
    }

    pub fn is_dtoc_filter_active(&self) -> (b: bool)
        ensures
            b == dtoc_active(self),
    {
        self.min_dtoc > 0 || self.max_dtoc > 0
    }

    pub fn is_ctoc_filter_active(&self) -> (b: bool)
        ensures
            b == ctoc_active(self),
    {
        self.min_ctoc > 0 || self.max_ctoc > 0
    }

    pub fn is_ctod_filter_active(&self) -> (b: bool)
        ensures
            b == ctod_active(self),
    {
        self.min_ctod > 0 || self.max_ctod > 0
    }

    pub fn is_qd_filter_active(&self) -> (b: bool)
        ensures
            b == qd_active(self),
    {
        self.min_qd > 0 || self.max_qd > 0
    }

    pub fn is_cpu_filter_active(&self) -> (b: bool)
        ensures
            b == cpu_active(self),
    {
        self.cpu_list.len() > 0
    }

    /// Builds the set of `cpu_list` (none for an empty list).
    pub fn build_cpu_set(&mut self)
        ensures
            final(self).cpu_list@ == old(self).cpu_list@,
            final(self).start_time == old(self).start_time,
            final(self).end_time == old(self).end_time,
            final(self).start_sector == old(self).start_sector,
            final(self).end_sector == old(self).end_sector,
            final(self).min_dtoc == old(self).min_dtoc && final(self).max_dtoc == old(self).max_dtoc,
            final(self).min_ctoc == old(self).min_ctoc && final(self).max_ctoc == old(self).max_ctoc,
            final(self).min_ctod == old(self).min_ctod && final(self).max_ctod == old(self).max_ctod,
            final(self).min_qd == old(self).min_qd && final(self).max_qd == old(self).max_qd,
            match final(self).cpu_set {
                Some(set) => old(self).cpu_list@.len() > 0 && set@ == old(self).cpu_list@.to_set(),
                None => old(self).cpu_list@.len() == 0,
            },
    {
        if self.cpu_list.len() > 0 {
            let set = cpu_set_of(&self.cpu_list);
            self.cpu_set = Some(set);
        } else {
            self.cpu_set = None;
        }
    }

    /// Whether `cpu` is wanted: looked up in the set when built, else in the list.
    pub fn cpu_matches(&self, cpu: u32) -> (b: bool)
        ensures
            b == cpu_ok(cpu, self),
    {
        match &self.cpu_set {
            Some(set) => set.contains(&cpu),
            None => list_contains(&self.cpu_list, cpu),
        }
    }
}

fn cpu_set_of(list: &Vec<u32>) -> (set: HashSet<u32>)
    ensures
        set@ == list@.to_set(),
{
    let mut set: HashSet<u32> = HashSet::new();
    let mut i: usize = 0;
    while i < list.len()
        invariant
            0 <= i <= list@.len(),
            set@ == list@.take(i as int).to_set(),
        decreases list@.len() - i,
    {
        set.insert(list[i]);
        assert(list@.take(i + 1).to_set() =~= list@.take(i as int).to_set().insert(list@[i as int])) by {
            assert forall|x: u32| #[trigger] list@.take(i + 1).contains(x) == (list@.take(i as int).contains(x) || x == list@[i as int]) by {
                if list@.take(i + 1).contains(x) {
                    let k = choose|k: int| 0 <= k < i + 1 && #[trigger] list@.take(i + 1)[k] == x;
                    if k < i {
                        assert(list@.take(i as int)[k] == x);
                    }
                }
                if list@.take(i as int).contains(x) {
                    let k = choose|k: int| 0 <= k < i && #[trigger] list@.take(i as int)[k] == x;
                    assert(list@.take(i + 1)[k] == x);
                }
                if x == list@[i as int] {
                    assert(list@.take(i + 1)[i as int] == x);
                }
            }
        }
        i = i + 1;
    }
    assert(list@.take(list@.len() as int) =~= list@);
    set
}

fn list_contains(list: &Vec<u32>, cpu: u32) -> (b: bool)
    ensures
        b == list@.contains(cpu),
{
    let mut i: usize = 0;
    while i < list.len()
        invariant
            0 <= i <= list@.len(),
            forall|k: int| 0 <= k < i ==> list@[k] != cpu,
        decreases list@.len() - i,
    {
        if list[i] == cpu {
            assert(list@[i as int] == cpu);
            return true;
        }
        i = i + 1;
    }
    false
}

/// The records that pass every active filter, in their order.  When the
/// CPU set is not built, a set of `cpu_list` is built for the lookups.
pub fn filter_data<T: Filterable>(data: Vec<T>, filter: &FilterOptions) -> (r: Vec<T>)
    requires
        sectors_computable(data@, filter),
    ensures
        r@ == data@.filter(|x: T| passes(x, filter)),
{
    let ghost d = data@;
    let ghost pred = |x: T| passes(x, filter);
    if !filter.is_time_filter_active() && !filter.is_sector_filter_active()
        && !filter.is_dtoc_filter_active() && !filter.is_ctod_filter_active()
        && !filter.is_ctoc_filter_active() && !filter.is_qd_filter_active()
        && !filter.is_cpu_filter_active() {
        proof {
            assert forall|i: int| 0 <= i < d.len() implies pred(#[trigger] d[i]) by {
                d[i].inactive_windows_match(filter);
            }
            lemma_filter_all(d, pred);
        }
        return data;
    }
    let built: Option<HashSet<u32>> = if filter.cpu_set.is_none() && filter.cpu_list.len() > 0 {
        Some(cpu_set_of(&filter.cpu_list))
    } else {
        None
    };
    let mut out: Vec<T> = Vec::new();
    for x in it: data.into_iter()
        invariant
            it.seq() == d,
            sectors_computable(d, filter),
            any_active(filter),
            pred == (|x: T| passes(x, filter)),
            out@ == d.take(it.index() as int).filter(pred),
            match built {
                Some(set) => filter.cpu_set is None && set@ == filter.cpu_list@.to_set(),
                None => filter.cpu_set is Some || filter.cpu_list@.len() == 0,
            },
    {
        let ghost idx = it.index() as int;
        proof {
            assert(d[idx] == x);
            assert(d.take(idx + 1).drop_last() =~= d.take(idx));
            reveal(Seq::filter);
        }
        let mut keep = x.matches_time(filter);
        if keep {
            keep = x.matches_sector(filter);
        }
        if keep && filter.is_dtoc_filter_active() {
            keep = match_range_latency(x.dtoc(), filter.min_dtoc, filter.max_dtoc);
        }
        if keep && filter.is_ctoc_filter_active() {
            keep = match_range_latency(x.ctoc() as i128, filter.min_ctoc, filter.max_ctoc);
        }
        if keep && filter.is_ctod_filter_active() {
            keep = match_range_latency(x.ctod() as i128, filter.min_ctod, filter.max_ctod);
        }
        if keep && filter.is_qd_filter_active() {
            keep = match_range_u32(x.qd(), filter.min_qd, filter.max_qd);
        }
        if keep && filter.is_cpu_filter_active() {
            keep = match x.cpu() {
                Some(c) => match &built {
                    Some(set) => set.contains(&c),
                    None => filter.cpu_matches(c),
                },
                None => true,
            };
        }
        assert(keep == pred(x));
        if keep {
            out.push(x);
        }
        assert(out@ =~= d.take(idx + 1).filter(pred));
    }
    assert(d.take(d.len() as int) =~= d);
    out
}

proof fn lemma_filter_all<T>(s: Seq<T>, pred: spec_fn(T) -> bool)
    requires
        forall|i: int| 0 <= i < s.len() ==> pred(#[trigger] s[i]),
    ensures
        s.filter(pred) == s,
    decreases s.len(),
{
    reveal(Seq::filter);
    if s.len() > 0 {
        lemma_filter_all(s.drop_last(), pred);
        assert(s.drop_last().push(s.last()) =~= s);
    }
}

/// A filter of which none of `is_time_filter_active`, `is_sector_filter_active`,
/// `is_dtoc_filter_active`, `is_ctoc_filter_active`, `is_ctod_filter_active`,
/// `is_qd_filter_active` and `is_cpu_filter_active` holds keeps every record,
/// in order: what `filter_data` returns (`data.filter(passes)`) is the data
/// unchanged.
pub proof fn law_inactive_filter_keeps_all<T: Filterable>(data: Seq<T>, f: &FilterOptions)
    requires
        !any_active(f),
    ensures
        data.filter(|x: T| passes(x, f)) == data,
{
    let pred = |x: T| passes(x, f);
    assert forall|i: int| 0 <= i < data.len() implies pred(#[trigger] data[i]) by {
        data[i].inactive_windows_match(f);
    }
    lemma_filter_all(data, pred);
}

proof fn lemma_filter_from<T>(s: Seq<T>, pred: spec_fn(T) -> bool)
    ensures
        forall|i: int| 0 <= i < s.filter(pred).len() ==> s.contains(#[trigger] s.filter(pred)[i]),
    decreases s.len(),
{
    reveal(Seq::filter);
    if s.len() > 0 {
        let d = s.drop_last();
        lemma_filter_from(d, pred);
        assert forall|i: int| 0 <= i < s.filter(pred).len() implies s.contains(#[trigger] s.filter(pred)[i]) by {
            if i < d.filter(pred).len() {
                assert(s.filter(pred)[i] == d.filter(pred)[i]);
                let j = choose|j: int| 0 <= j < d.len() && d[j] == d.filter(pred)[i];
                assert(s[j] == d[j]);
            } else {
                assert(s.filter(pred)[i] == s.last());
                assert(s[s.len() - 1] == s.last());
            }
        }
    }
}

/// Filtering what a filter kept changes nothing: `filter_data` may be called
/// again on its own result (its `requires` holds there) and returns that
/// result unchanged.
pub proof fn law_filter_idempotent<T: Filterable>(data: Seq<T>, f: &FilterOptions)
    ensures
        sectors_computable(data, f) ==> sectors_computable(data.filter(|x: T| passes(x, f)), f),
        data.filter(|x: T| passes(x, f)).filter(|x: T| passes(x, f)) == data.filter(|x: T| passes(x, f)),
{
    let pred = |x: T| passes(x, f);
    let kept = data.filter(pred);
    data.filter_lemma(pred);
    assert forall|i: int| 0 <= i < kept.len() implies pred(#[trigger] kept[i]) by {
    }
    lemma_filter_all(kept, pred);
    lemma_filter_from(data, pred);
    if sectors_computable(data, f) && any_active(f) {
        assert forall|i: int| 0 <= i < kept.len() && (#[trigger] kept[i]).time_matches(f) implies kept[i].sector_fits() by {
            assert(data.contains(kept[i]));
            let j = choose|j: int| 0 <= j < data.len() && data[j] == kept[i];
            assert(data[j].time_matches(f));
        }
    }
}

/// With the time filter on, every Block record that `filter_block_data`
/// keeps lies in the window: at or after `start_time` when that is set,
/// and at or before `end_time` when that is set; a record outside the
/// window is never kept.
pub proof fn law_time_window_block(data: Seq<Block>, f: &FilterOptions, i: int)
    requires
        time_active(f),
        0 <= i < data.filter(|x: Block| passes(x, f)).len(),
    ensures
        f.start_time > 0 ==> f.start_time <= data.filter(|x: Block| passes(x, f))[i].time,
        f.end_time > 0 ==> data.filter(|x: Block| passes(x, f))[i].time <= f.end_time,
{
    data.filter_lemma(|x: Block| passes(x, f));
}

/// With the time filter on, every UFS record that `filter_ufs_data` keeps
/// lies in the window: at or after `start_time` when that is set, and at or
/// before `end_time` when that is set.
pub proof fn law_time_window_ufs(data: Seq<UFS>, f: &FilterOptions, i: int)
    requires
        time_active(f),
        0 <= i < data.filter(|x: UFS| passes(x, f)).len(),
    ensures
        f.start_time > 0 ==> f.start_time <= data.filter(|x: UFS| passes(x, f))[i].time,
        f.end_time > 0 ==> data.filter(|x: UFS| passes(x, f))[i].time <= f.end_time,
{
    data.filter_lemma(|x: UFS| passes(x, f));
}

/// With the time filter on, every custom UFS request that
/// `filter_ufscustom_data` keeps overlaps the window: it ends at or after
/// `start_time` when that is set, and starts at or before `end_time` when
/// that is set.
pub proof fn law_time_window_ufscustom(data: Seq<UFSCUSTOM>, f: &FilterOptions, i: int)
    requires
        time_active(f),
        0 <= i < data.filter(|x: UFSCUSTOM| passes(x, f)).len(),
    ensures
        f.start_time > 0 ==> f.start_time <= data.filter(|x: UFSCUSTOM| passes(x, f))[i].end_time,
        f.end_time > 0 ==> data.filter(|x: UFSCUSTOM| passes(x, f))[i].start_time <= f.end_time,
{
    data.filter_lemma(|x: UFSCUSTOM| passes(x, f));
}

/// Every record that `filter_data` keeps meets each active latency, queue
/// depth and CPU bound: at or above a nonzero minimum, at or below a
/// nonzero maximum (and then not negative), and, with a CPU list, on one of
/// the listed CPUs when the record names one.
pub proof fn law_kept_within_bounds<T: Filterable>(data: Seq<T>, f: &FilterOptions, i: int)
    requires
        0 <= i < data.filter(|x: T| passes(x, f)).len(),
    ensures
        ({
            let x = data.filter(|x: T| passes(x, f))[i];
            &&& f.min_dtoc > 0 ==> x.dtoc_of() >= f.min_dtoc
            &&& f.max_dtoc > 0 ==> 0 <= x.dtoc_of() <= f.max_dtoc
            &&& f.min_ctoc > 0 ==> x.ctoc_of() >= f.min_ctoc
            &&& f.max_ctoc > 0 ==> 0 <= x.ctoc_of() <= f.max_ctoc
            &&& f.min_ctod > 0 ==> x.ctod_of() >= f.min_ctod
            &&& f.max_ctod > 0 ==> 0 <= x.ctod_of() <= f.max_ctod
            &&& f.min_qd > 0 ==> x.qd_of() >= f.min_qd
            &&& f.max_qd > 0 ==> x.qd_of() <= f.max_qd
            &&& f.cpu_list@.len() > 0 && f.cpu_set is None ==> match x.cpu_of() {
                Some(c) => f.cpu_list@.contains(c),
                None => true,
            }
        }),
{
    data.filter_lemma(|x: T| passes(x, f));
}

/// With the address filter on, every Block record that `filter_block_data`
/// keeps overlaps the window: its last sector (start plus size) is at or
/// after `start_sector` when that is set, and its start at or before
/// `end_sector` when that is set.
pub proof fn law_sector_window_block(data: Seq<Block>, f: &FilterOptions, i: int)
    requires
        0 <= i < data.filter(|x: Block| passes(x, f)).len(),
    ensures
        f.start_sector > 0 ==> f.start_sector <= data.filter(|x: Block| passes(x, f))[i].sector
            + data.filter(|x: Block| passes(x, f))[i].size,
        f.end_sector > 0 ==> data.filter(|x: Block| passes(x, f))[i].sector <= f.end_sector,
{
    data.filter_lemma(|x: Block| passes(x, f));
}

/// With the address filter on, every UFS record that `filter_ufs_data`
/// keeps overlaps the window: its address plus `size / 4096` is at or after
/// `start_sector` when that is set, and its address at or before
/// `end_sector` when that is set.
pub proof fn law_sector_window_ufs(data: Seq<UFS>, f: &FilterOptions, i: int)
    requires
        0 <= i < data.filter(|x: UFS| passes(x, f)).len(),
    ensures
        f.start_sector > 0 ==> f.start_sector <= data.filter(|x: UFS| passes(x, f))[i].lba
            + data.filter(|x: UFS| passes(x, f))[i].size / 4096,
        f.end_sector > 0 ==> data.filter(|x: UFS| passes(x, f))[i].lba <= f.end_sector,
{
    data.filter_lemma(|x: UFS| passes(x, f));
}

pub fn filter_block_data(block_data: Vec<Block>, filter: &FilterOptions) -> (r: Vec<Block>)
    requires
        sectors_computable(block_data@, filter),
    ensures
        r@ == block_data@.filter(|x: Block| passes(x, filter)),
{
    filter_data(block_data, filter)
}

pub fn filter_ufs_data(ufs_data: Vec<UFS>, filter: &FilterOptions) -> (r: Vec<UFS>)
    requires
        sectors_computable(ufs_data@, filter),
    ensures
        r@ == ufs_data@.filter(|x: UFS| passes(x, filter)),
{
    filter_data(ufs_data, filter)
}

pub fn filter_ufscustom_data(ufscustom_data: Vec<UFSCUSTOM>, filter: &FilterOptions) -> (r: Vec<UFSCUSTOM>)
    requires
        sectors_computable(ufscustom_data@, filter),
    ensures
        r@ == ufscustom_data@.filter(|x: UFSCUSTOM| passes(x, filter)),
{
    filter_data(ufscustom_data, filter)
}

// ---------------------------------------------------------------------------
// CPU lists given as text
// ---------------------------------------------------------------------------

/// The pieces of `s` between commas (`str::split(',')`).
pub open spec fn comma_pieces(s: Seq<char>) -> Seq<Seq<char>>
    decreases s.len(),
{
    if s.len() == 0 {
        seq![Seq::empty()]
    } else {
        let p = comma_pieces(s.drop_last());
        if s.last() == ',' {
            p.push(Seq::empty())
        } else {
            p.update(p.len() - 1, p.last().push(s.last()))
        }
    }
}

pub(crate) proof fn lemma_comma_pieces_nonempty(s: Seq<char>)
    ensures
        comma_pieces(s).len() >= 1,
    decreases s.len(),
{
    if s.len() > 0 {
        lemma_comma_pieces_nonempty(s.drop_last());
    }
}

pub open spec fn pieces_view(v: Seq<String>) -> Seq<Seq<char>> {
    Seq::new(v.len(), |i: int| v[i]@)
}

pub(crate) fn split_commas(chars: &[char]) -> (r: Vec<String>)
    ensures
        pieces_view(r@) == comma_pieces(chars@),
{
    let mut done: Vec<String> = Vec::new();
    let mut cur = String::new();
    let mut i: usize = 0;
    assert(chars@.take(0) =~= Seq::<char>::empty());
    assert(pieces_view(done@).push(cur@) =~= comma_pieces(chars@.take(0)));
    while i < chars.len()
        invariant
            0 <= i <= chars@.len(),
            pieces_view(done@).push(cur@) == comma_pieces(chars@.take(i as int)),
        decreases chars@.len() - i,
    {
        proof {
            assert(chars@.take(i + 1).drop_last() =~= chars@.take(i as int));
            assert(chars@.take(i + 1).last() == chars@[i as int]);
        }
        let ghost before = pieces_view(done@);
        if chars[i] == ',' {
            let piece = cur;
            done.push(piece);
            cur = String::new();
            assert(pieces_view(done@) =~= before.push(piece@));
            assert(pieces_view(done@).push(cur@) =~= comma_pieces(chars@.take(i + 1)));
        } else {
            let ghost old_cur = cur@;
            crate::text::push_char(&mut cur, chars[i]);
            assert(pieces_view(done@).push(cur@) =~= before.push(old_cur).update(before.len() as int, old_cur.push(chars@[i as int])));
        }
        i = i + 1;
    }
    assert(chars@.take(chars@.len() as int) =~= chars@);
    let ghost before = pieces_view(done@);
    done.push(cur);
    assert(pieces_view(done@) =~= before.push(cur@));
    done
}

/// The CPU numbers of a comma-separated list (each piece trimmed), when
/// every piece is a number; `None` for a blank answer or any piece that is
/// not one.
pub open spec fn cpu_list_of(text: Seq<char>) -> Option<Seq<u32>> {
    let t = trimmed(text);
    let ps = comma_pieces(t);
    if t.len() > 0 && forall|i: int| 0 <= i < ps.len() ==> parse_unsigned(trimmed(#[trigger] ps[i]), u32::MAX as nat) is Some {
        Some(Seq::new(ps.len(), |i: int| parse_unsigned(trimmed(ps[i]), u32::MAX as nat)->Some_0 as u32))
    } else {
        None
    }
}

/// Reads a CPU list such as `0, 1,2`: all pieces must be numbers.
pub fn parse_cpu_list(text: &str) -> (r: Option<Vec<u32>>)
    ensures
        match cpu_list_of(text@) {
            Some(l) => r matches Some(v) && v@ == l,
            None => r is None,
        },
{
    let cs = chars_of(text);
    let t = trim_chars(cs.as_slice());
    let tc = chars_of(t.as_str());
    if tc.len() == 0 {
        return None;
    }
    let pieces = split_commas(tc.as_slice());
    let ghost ps = comma_pieces(t@);
    let mut out: Vec<u32> = Vec::new();
    let mut i: usize = 0;
    while i < pieces.len()
        invariant
            pieces_view(pieces@) == ps,
            ps == comma_pieces(trimmed(text@)),
            0 <= i <= ps.len(),
            out@.len() == i,
            forall|k: int| 0 <= k < i ==> parse_unsigned(trimmed(#[trigger] ps[k]), u32::MAX as nat) is Some
                && out@[k] == parse_unsigned(trimmed(ps[k]), u32::MAX as nat)->Some_0 as u32,
        decreases ps.len() - i,
    {
        let pc = chars_of(pieces[i].as_str());
        let pt = trim_chars(pc.as_slice());
        let ptc = chars_of(pt.as_str());
        assert(ps[i as int] == pieces@[i as int]@);
        match parse_unsigned_exec(ptc.as_slice(), 0, ptc.len(), 0xffff_ffff) {
            Some(v) => {
                assert(ptc@.subrange(0, ptc@.len() as int) =~= ptc@);
                out.push(v as u32);
            },
            None => {
                assert(ptc@.subrange(0, ptc@.len() as int) =~= ptc@);
                return None;
            },
        }
        i = i + 1;
    }
    assert(out@ =~= Seq::new(ps.len(), |k: int| parse_unsigned(trimmed(ps[k]), u32::MAX as nat)->Some_0 as u32));
    Some(out)
}

} // verus!
