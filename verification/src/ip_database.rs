//! The in-memory geo-IP database: a Range Store of ingested records keyed
//! by country code, and an Address Cache of the usable host addresses
//! derived per country, populated lazily and served by random lookup.

use vstd::prelude::*;
use vstd::string::*;
use crate::rng::random_u64;
use crate::text::{trim_seq, trim_str, split_sep, split_str, parse_ipv4, parse_ipv4_str, dec_parse,
    parse_u64};

verus! {

/// One ingested record: a country code and an inclusive IPv4 range, with
/// addresses held as 32-bit integers in network order.
pub struct GeoRange {
    pub country_code: String,
    pub ip_start: u32,
    pub ip_end: u32,
    /// Declared address count from the source record; advisory only.
    pub total_ips: u64,
}

/// The mathematical value of a `GeoRange`.
pub ghost struct GeoRangeV {
    pub country_code: Seq<char>,
    pub ip_start: u32,
    pub ip_end: u32,
    pub total_ips: u64,
}

impl GeoRangeV {
    /// A range is valid when its bounds are ordered.
    pub open spec fn wf(self) -> bool {
        self.ip_start <= self.ip_end
    }
}

impl View for GeoRange {
    type V = GeoRangeV;

    open spec fn view(&self) -> GeoRangeV {
        GeoRangeV {
            country_code: self.country_code@,
            ip_start: self.ip_start,
            ip_end: self.ip_end,
            total_ips: self.total_ips,
        }
    }
}

impl DeepView for GeoRange {
    type V = GeoRangeV;

    open spec fn deep_view(&self) -> GeoRangeV {
        self.view()
    }
}

/// Why a record was rejected during ingestion.
#[derive(Debug, PartialEq, Eq, Structural, Clone, Copy)]
pub enum ParseErrorKind {
    /// The record does not have five or six fields.
    FieldCount,
    /// The range start field is not a dotted-quad address.
    IpStart,
    /// The range end field is not a dotted-quad address.
    IpEnd,
    /// The declared total field is not a non-negative integer.
    TotalIps,
    /// The range start exceeds the range end.
    InvertedRange,
}

/// An ingestion failure: which record failed, and why. No earlier record
/// is committed when this is returned.
#[derive(Debug, PartialEq, Eq)]
pub struct ParseError {
    /// Index of the offending record among the record lines, starting at 0.
    pub record_index: usize,
    /// The offending record line, verbatim.
    pub record: String,
    pub kind: ParseErrorKind,
}

/// A lookup failure.
#[derive(Debug, PartialEq, Eq, Structural, Clone, Copy)]
pub enum LookupError {
    /// The requested country code has no ranges.
    UnknownCountry,
    /// The country exists but all its ranges yield zero usable addresses.
    EmptyRange,
}

impl LookupError {
    /// A short diagnostic text for this error.
    pub fn message(&self) -> (r: String)
        ensures
            *self == LookupError::UnknownCountry ==> r@ == "unknown country code"@,
            *self == LookupError::EmptyRange ==> r@ == "country has no usable addresses"@,
    {
        match self {
            LookupError::UnknownCountry => String::from_str("unknown country code"),
            LookupError::EmptyRange => String::from_str("country has no usable addresses"),
        }
    }
}

/// The usable host addresses of one range: every address strictly between
/// `ip_start` and `ip_end`, in ascending order. The first address of the
/// range (network) and the last (broadcast) are excluded.
pub open spec fn expand_range(r: GeoRangeV) -> Seq<u32> {
    if r.ip_start + 1 < r.ip_end {
        Seq::new((r.ip_end - r.ip_start - 1) as nat, |i: int| (r.ip_start + 1 + i) as u32)
    } else {
        Seq::empty()
    }
}

/// The usable host addresses of a sequence of ranges, in range order.
pub open spec fn expand_all(rs: Seq<GeoRangeV>) -> Seq<u32>
    decreases rs.len(),
{
    if rs.len() == 0 {
        Seq::empty()
    } else {
        expand_range(rs[0]) + expand_all(rs.skip(1))
    }
}

/// A range that covers at most two addresses contributes no usable address.
pub proof fn lemma_degenerate_range_empty(r: GeoRangeV)
    requires
        r.ip_end - r.ip_start <= 1,
    ensures
        expand_range(r) == Seq::<u32>::empty(),
{
}

proof fn lemma_expand_all_push(rs: Seq<GeoRangeV>, r: GeoRangeV)
    ensures
        expand_all(rs.push(r)) == expand_all(rs) + expand_range(r),
    decreases rs.len(),
{
    if rs.len() == 0 {
        reveal_with_fuel(expand_all, 3);
        assert(rs.push(r).skip(1) =~= Seq::<GeoRangeV>::empty());
        assert(expand_all(rs.push(r)) =~= expand_all(rs) + expand_range(r));
    } else {
        assert(rs.push(r).skip(1) =~= rs.skip(1).push(r));
        lemma_expand_all_push(rs.skip(1), r);
        assert(expand_all(rs.push(r)) =~= expand_all(rs) + expand_range(r));
    }
}

/// Every expanded address lies strictly inside one of the ranges it came
/// from: strictly above some range's start and strictly below its end.
pub proof fn lemma_expanded_address_in_range(rs: Seq<GeoRangeV>, k: int)
    requires
        0 <= k < expand_all(rs).len(),
    ensures
        exists|i: int|
            0 <= i < rs.len() && rs[i].ip_start < expand_all(rs)[k] && expand_all(rs)[k]
                < rs[i].ip_end,
    decreases rs.len(),
{
    let first = expand_range(rs[0]);
    if k < first.len() {
        assert(rs[0].ip_start < expand_all(rs)[k] && expand_all(rs)[k] < rs[0].ip_end);
    } else {
        lemma_expanded_address_in_range(rs.skip(1), k - first.len());
        let j = choose|j: int|
            0 <= j < rs.skip(1).len() && rs.skip(1)[j].ip_start < expand_all(rs.skip(1))[k
                - first.len()] && expand_all(rs.skip(1))[k - first.len()] < rs.skip(1)[j].ip_end;
        assert(rs[j + 1].ip_start < expand_all(rs)[k] && expand_all(rs)[k] < rs[j + 1].ip_end);
    }
}

/// What one record line parses to: the range, or the reason it is
/// rejected. A record has five or six comma-separated fields — country
/// code, range start, range end, declared total, a timestamp, and an
/// optional label; the last two are opaque. The country code is trimmed;
/// the range must not be inverted.
pub open spec fn spec_parse_record(line: Seq<char>) -> Result<GeoRangeV, ParseErrorKind> {
    let fs = split_sep(line, ',');
    if fs.len() != 5 && fs.len() != 6 {
        Err(ParseErrorKind::FieldCount)
    } else if parse_ipv4(fs[1]) is None {
        Err(ParseErrorKind::IpStart)
    } else if parse_ipv4(fs[2]) is None {
        Err(ParseErrorKind::IpEnd)
    } else if dec_parse(fs[3]) is None {
        Err(ParseErrorKind::TotalIps)
    } else if parse_ipv4(fs[1])->Some_0 > parse_ipv4(fs[2])->Some_0 {
        Err(ParseErrorKind::InvertedRange)
    } else {
        Ok(
            GeoRangeV {
                country_code: trim_seq(fs[0]),
                ip_start: parse_ipv4(fs[1])->Some_0,
                ip_end: parse_ipv4(fs[2])->Some_0,
                total_ips: dec_parse(fs[3])->Some_0,
            },
        )
    }
}

/// No record that parses successfully has an inverted range: a record
/// whose start exceeds its end is rejected with a parse error instead.
pub proof fn lemma_parsed_record_valid(line: Seq<char>)
    requires
        spec_parse_record(line) is Ok,
    ensures
        spec_parse_record(line)->Ok_0.wf(),
{
}

fn parse_record(line: &str) -> (r: Result<GeoRange, ParseErrorKind>)
    ensures
        match r {
            Ok(g) => spec_parse_record(line@) is Ok && g@ == spec_parse_record(line@)->Ok_0
                && g@.wf(),
            Err(k) => spec_parse_record(line@) == Err::<GeoRangeV, ParseErrorKind>(k),
        },
{
    let fields = split_str(line, ',');
    if fields.len() != 5 && fields.len() != 6 {
        return Err(ParseErrorKind::FieldCount);
    }
    let ip_start = match parse_ipv4_str(fields[1].as_str()) {
        Some(v) => v,
        None => {
            return Err(ParseErrorKind::IpStart);
        },
    };
    let ip_end = match parse_ipv4_str(fields[2].as_str()) {
        Some(v) => v,
        None => {
            return Err(ParseErrorKind::IpEnd);
        },
    };
    let total_ips = match parse_u64(fields[3].as_str()) {
        Some(v) => v,
        None => {
            return Err(ParseErrorKind::TotalIps);
        },
    };
    if ip_start > ip_end {
        return Err(ParseErrorKind::InvertedRange);
    }
    let country_code = trim_str(fields[0].as_str());
    Ok(GeoRange { country_code, ip_start, ip_end, total_ips })
}

/// The record lines of a source blob: the lines of the trimmed blob after
/// the header line.
pub open spec fn record_lines(src: Seq<char>) -> Seq<Seq<char>> {
    split_sep(trim_seq(src), '\n').skip(1)
}

/// The records of a sequence of lines that all parse.
pub open spec fn parsed_records(ls: Seq<Seq<char>>) -> Seq<GeoRangeV> {
    ls.map_values(|l: Seq<char>| spec_parse_record(l)->Ok_0)
}

/// Whether the batch holds a record for country `c`.
pub open spec fn batch_has_code(recs: Seq<GeoRangeV>, c: Seq<char>) -> bool {
    exists|i: int| 0 <= i < recs.len() && recs[i].country_code == c
}

/// The batch's records for country `c`, in batch order.
pub open spec fn recs_for(recs: Seq<GeoRangeV>, c: Seq<char>) -> Seq<GeoRangeV> {
    recs.filter(|r: GeoRangeV| r.country_code == c)
}

proof fn lemma_recs_for_push(recs: Seq<GeoRangeV>, e: GeoRangeV, c: Seq<char>)
    ensures
        recs_for(recs.push(e), c) == (if e.country_code == c {
            recs_for(recs, c).push(e)
        } else {
            recs_for(recs, c)
        }),
{
    reveal(Seq::filter);
    assert(recs.push(e).drop_last() =~= recs);
    assert(recs.push(e).last() == e);
}

proof fn lemma_recs_for_none(recs: Seq<GeoRangeV>, c: Seq<char>)
    requires
        forall|i: int| 0 <= i < recs.len() ==> (#[trigger] recs[i]).country_code != c,
    ensures
        recs_for(recs, c) == Seq::<GeoRangeV>::empty(),
    decreases recs.len(),
{
    reveal(Seq::filter);
    if recs.len() > 0 {
        lemma_recs_for_none(recs.drop_last(), c);
        assert(recs.last().country_code != c);
    } else {
        assert(recs =~= Seq::<GeoRangeV>::empty());
    }
}

/// The Range Store after committing a batch: a country mentioned in the
/// batch holds exactly the batch's records for it, in batch order; any
/// other country keeps its ranges.
pub open spec fn commit_store(store: Map<Seq<char>, Seq<GeoRangeV>>, recs: Seq<GeoRangeV>) -> Map<
    Seq<char>,
    Seq<GeoRangeV>,
> {
    Map::new(
        |c: Seq<char>| store.dom().contains(c) || batch_has_code(recs, c),
        |c: Seq<char>|
            if batch_has_code(recs, c) {
                recs_for(recs, c)
            } else {
                store[c]
            },
    )
}

struct CountryRanges {
    code: String,
    entries: Vec<GeoRange>,
}

struct CountryAddrs {
    code: String,
    addrs: Vec<u32>,
}

spec fn distinct_codes(v: Seq<CountryRanges>) -> bool {
    forall|i: int, j: int| 0 <= i < j < v.len() ==> v[i].code@ != v[j].code@
}

spec fn store_has_code(v: Seq<CountryRanges>, c: Seq<char>) -> bool {
    exists|i: int| 0 <= i < v.len() && v[i].code@ == c
}

spec fn store_index_of(v: Seq<CountryRanges>, c: Seq<char>) -> int {
    choose|i: int| 0 <= i < v.len() && v[i].code@ == c
}

spec fn store_map(v: Seq<CountryRanges>) -> Map<Seq<char>, Seq<GeoRangeV>> {
    Map::new(
        |c: Seq<char>| store_has_code(v, c),
        |c: Seq<char>| v[store_index_of(v, c)].entries.deep_view(),
    )
}

spec fn distinct_cache_codes(v: Seq<CountryAddrs>) -> bool {
    forall|i: int, j: int| 0 <= i < j < v.len() ==> v[i].code@ != v[j].code@
}

spec fn cache_has_code(v: Seq<CountryAddrs>, c: Seq<char>) -> bool {
    exists|i: int| 0 <= i < v.len() && v[i].code@ == c
}

spec fn cache_index_of(v: Seq<CountryAddrs>, c: Seq<char>) -> int {
    choose|i: int| 0 <= i < v.len() && v[i].code@ == c
}

spec fn cache_map(v: Seq<CountryAddrs>) -> Map<Seq<char>, Seq<u32>> {
    Map::new(|c: Seq<char>| cache_has_code(v, c), |c: Seq<char>| v[cache_index_of(v, c)].addrs@)
}

/// The mathematical value of the database: the Range Store and the Address
/// Cache, each a mapping keyed by country code.
pub ghost struct DbView {
    pub store: Map<Seq<char>, Seq<GeoRangeV>>,
    pub cache: Map<Seq<char>, Seq<u32>>,
}

/// The geo-IP database. The Range Store maps each country code to its
/// ingested ranges in record order; the Address Cache memoizes, per
/// country, the full list of usable host addresses derived from them.
pub struct IPGeoDatabase {
    ipgeo_data: Vec<CountryRanges>,
    generated_ips: Vec<CountryAddrs>,
}

impl View for IPGeoDatabase {
    type V = DbView;

    closed spec fn view(&self) -> DbView {
        DbView { store: store_map(self.ipgeo_data@), cache: cache_map(self.generated_ips@) }
    }
}

impl IPGeoDatabase {
    /// Well-formedness: country codes are unique keys; every stored range
    /// is valid and filed under its own code; every cache entry belongs to
    /// a stored country and holds exactly the expansion of its ranges.
    pub closed spec fn wf(self) -> bool {
        &&& distinct_codes(self.ipgeo_data@)
        &&& (forall|i: int, k: int|
            0 <= i < self.ipgeo_data@.len() && 0 <= k < self.ipgeo_data@[i].entries@.len()
                ==> (#[trigger] self.ipgeo_data@[i].entries@[k])@.wf()
                && self.ipgeo_data@[i].entries@[k].country_code@ == self.ipgeo_data@[i].code@)
        &&& distinct_cache_codes(self.generated_ips@)
        &&& (forall|i: int|
            0 <= i < self.generated_ips@.len() ==> store_has_code(
                self.ipgeo_data@,
                (#[trigger] self.generated_ips@[i]).code@,
            ) && self.generated_ips@[i].addrs@ == expand_all(
                self.ipgeo_data@[store_index_of(
                    self.ipgeo_data@,
                    self.generated_ips@[i].code@,
                )].entries.deep_view(),
            ))
    }

    /// A fresh database: no ranges, nothing cached.
    pub fn new() -> (db: IPGeoDatabase)
        ensures
            db.wf(),
            db@.store == Map::<Seq<char>, Seq<GeoRangeV>>::empty(),
            db@.cache == Map::<Seq<char>, Seq<u32>>::empty(),
    {
        let db = IPGeoDatabase { ipgeo_data: Vec::new(), generated_ips: Vec::new() };
        proof {
            lemma_store_map_absent(db.ipgeo_data@, arbitrary());
            assert(db@.store =~~= Map::<Seq<char>, Seq<GeoRangeV>>::empty());
            assert(db@.cache =~~= Map::<Seq<char>, Seq<u32>>::empty());
        }
        db
    }
}

proof fn lemma_store_map_index(v: Seq<CountryRanges>, i: int)
    requires
        distinct_codes(v),
        0 <= i < v.len(),
    ensures
        store_map(v).dom().contains(v[i].code@),
        store_map(v)[v[i].code@] == v[i].entries.deep_view(),
{
    assert(store_has_code(v, v[i].code@));
    let j = store_index_of(v, v[i].code@);
    assert(0 <= j < v.len() && v[j].code@ == v[i].code@);
    if i < j {
        assert(v[i].code@ != v[j].code@);
    } else if j < i {
        assert(v[j].code@ != v[i].code@);
    }
}

proof fn lemma_store_map_absent(v: Seq<CountryRanges>, c: Seq<char>)
    requires
        forall|j: int| 0 <= j < v.len() ==> v[j].code@ != c,
    ensures
        !store_map(v).dom().contains(c),
{
    if store_has_code(v, c) {
        let i = choose|i: int| 0 <= i < v.len() && v[i].code@ == c;
        assert(v[i].code@ != c);
    }
}

proof fn lemma_store_map_push(v: Seq<CountryRanges>, g: CountryRanges)
    requires
        distinct_codes(v),
        forall|j: int| 0 <= j < v.len() ==> v[j].code@ != g.code@,
    ensures
        distinct_codes(v.push(g)),
        store_map(v.push(g)) == store_map(v).insert(g.code@, g.entries.deep_view()),
{
    let v2 = v.push(g);
    assert forall|i: int, j: int| 0 <= i < j < v2.len() implies v2[i].code@ != v2[j].code@ by {
        if j < v.len() {
            assert(v[i].code@ != v[j].code@);
        } else {
            assert(v[i].code@ != g.code@);
        }
    }
    let m1 = store_map(v2);
    let m2 = store_map(v).insert(g.code@, g.entries.deep_view());
    assert forall|c: Seq<char>| m1.dom().contains(c) implies m2.dom().contains(c) by {
        let i = choose|i: int| 0 <= i < v2.len() && v2[i].code@ == c;
        if i < v.len() {
            assert(store_has_code(v, c));
        }
    }
    assert forall|c: Seq<char>| m2.dom().contains(c) implies m1.dom().contains(c) by {
        if c == g.code@ {
            assert(v2[v.len() as int].code@ == c);
        } else {
            let i = choose|i: int| 0 <= i < v.len() && v[i].code@ == c;
            assert(v2[i].code@ == c);
        }
    }
    assert forall|c: Seq<char>| m1.dom().contains(c) implies m1[c] == m2[c] by {
        if c == g.code@ {
            lemma_store_map_index(v2, v.len() as int);
        } else {
            let i = choose|i: int| 0 <= i < v2.len() && v2[i].code@ == c;
            assert(i < v.len());
            lemma_store_map_index(v2, i);
            lemma_store_map_index(v, i);
        }
    }
    assert(m1 =~~= m2);
}

proof fn lemma_store_map_update(v: Seq<CountryRanges>, i: int, g: CountryRanges)
    requires
        distinct_codes(v),
        0 <= i < v.len(),
        g.code@ == v[i].code@,
    ensures
        distinct_codes(v.update(i, g)),
        store_map(v.update(i, g)) == store_map(v).insert(g.code@, g.entries.deep_view()),
{
    let v2 = v.update(i, g);
    assert forall|p: int, q: int| 0 <= p < q < v2.len() implies v2[p].code@ != v2[q].code@ by {
        assert(v[p].code@ != v[q].code@);
    }
    let m1 = store_map(v2);
    let m2 = store_map(v).insert(g.code@, g.entries.deep_view());
    assert forall|c: Seq<char>| m1.dom().contains(c) implies m2.dom().contains(c) by {
        let j = choose|j: int| 0 <= j < v2.len() && v2[j].code@ == c;
        if j != i {
            assert(v[j].code@ == c);
        }
    }
    assert forall|c: Seq<char>| m2.dom().contains(c) implies m1.dom().contains(c) by {
        if c == g.code@ {
            assert(v2[i].code@ == c);
        } else {
            let j = choose|j: int| 0 <= j < v.len() && v[j].code@ == c;
            assert(j != i);
            assert(v2[j].code@ == c);
        }
    }
    assert forall|c: Seq<char>| m1.dom().contains(c) implies m1[c] == m2[c] by {
        if c == g.code@ {
            lemma_store_map_index(v2, i);
        } else {
            let j = choose|j: int| 0 <= j < v2.len() && v2[j].code@ == c;
            assert(j != i);
            lemma_store_map_index(v2, j);
            lemma_store_map_index(v, j);
        }
    }
    assert(m1 =~~= m2);
}

proof fn lemma_cache_map_index(v: Seq<CountryAddrs>, i: int)
    requires
        distinct_cache_codes(v),
        0 <= i < v.len(),
    ensures
        cache_map(v).dom().contains(v[i].code@),
        cache_map(v)[v[i].code@] == v[i].addrs@,
{
    assert(cache_has_code(v, v[i].code@));
    let j = cache_index_of(v, v[i].code@);
    assert(0 <= j < v.len() && v[j].code@ == v[i].code@);
    if i < j {
        assert(v[i].code@ != v[j].code@);
    } else if j < i {
        assert(v[j].code@ != v[i].code@);
    }
}

proof fn lemma_cache_map_absent(v: Seq<CountryAddrs>, c: Seq<char>)
    requires
        forall|j: int| 0 <= j < v.len() ==> v[j].code@ != c,
    ensures
        !cache_map(v).dom().contains(c),
{
    if cache_has_code(v, c) {
        let i = choose|i: int| 0 <= i < v.len() && v[i].code@ == c;
        assert(v[i].code@ != c);
    }
}

proof fn lemma_cache_map_push(v: Seq<CountryAddrs>, g: CountryAddrs)
    requires
        distinct_cache_codes(v),
        forall|j: int| 0 <= j < v.len() ==> v[j].code@ != g.code@,
    ensures
        distinct_cache_codes(v.push(g)),
        cache_map(v.push(g)) == cache_map(v).insert(g.code@, g.addrs@),
{
    let v2 = v.push(g);
    assert forall|i: int, j: int| 0 <= i < j < v2.len() implies v2[i].code@ != v2[j].code@ by {
        if j < v.len() {
            assert(v[i].code@ != v[j].code@);
        } else {
            assert(v[i].code@ != g.code@);
        }
    }
    let m1 = cache_map(v2);
    let m2 = cache_map(v).insert(g.code@, g.addrs@);
    assert forall|c: Seq<char>| m1.dom().contains(c) implies m2.dom().contains(c) by {
        let i = choose|i: int| 0 <= i < v2.len() && v2[i].code@ == c;
        if i < v.len() {
            assert(cache_has_code(v, c));
        }
    }
    assert forall|c: Seq<char>| m2.dom().contains(c) implies m1.dom().contains(c) by {
        if c == g.code@ {
            assert(v2[v.len() as int].code@ == c);
        } else {
            let i = choose|i: int| 0 <= i < v.len() && v[i].code@ == c;
            assert(v2[i].code@ == c);
        }
    }
    assert forall|c: Seq<char>| m1.dom().contains(c) implies m1[c] == m2[c] by {
        if c == g.code@ {
            lemma_cache_map_index(v2, v.len() as int);
        } else {
            let i = choose|i: int| 0 <= i < v2.len() && v2[i].code@ == c;
            assert(i < v.len());
            lemma_cache_map_index(v2, i);
            lemma_cache_map_index(v, i);
        }
    }
    assert(m1 =~~= m2);
}

fn find_store_index(v: &Vec<CountryRanges>, code: &String) -> (r: Option<usize>)
    ensures
        match r {
            Some(i) => i < v@.len() && v@[i as int].code@ == code@,
            None => forall|j: int| 0 <= j < v@.len() ==> v@[j].code@ != code@,
        },
{
    let mut i: usize = 0;
    while i < v.len()
        invariant
            0 <= i <= v@.len(),
            forall|j: int| 0 <= j < i ==> v@[j].code@ != code@,
        decreases v@.len() - i,
    {
        if v[i].code == *code {
            return Some(i);
        }
        i = i + 1;
    }
    None
}

fn find_cache_index(v: &Vec<CountryAddrs>, code: &String) -> (r: Option<usize>)
    ensures
        match r {
            Some(i) => i < v@.len() && v@[i as int].code@ == code@,
            None => forall|j: int| 0 <= j < v@.len() ==> v@[j].code@ != code@,
        },
{
    let mut i: usize = 0;
    while i < v.len()
        invariant
            0 <= i <= v@.len(),
            forall|j: int| 0 <= j < i ==> v@[j].code@ != code@,
        decreases v@.len() - i,
    {
        if v[i].code == *code {
            return Some(i);
        }
        i = i + 1;
    }
    None
}

/// Enumerate every usable host address of every range, in range order.
fn expand_entries(entries: &Vec<GeoRange>) -> (out: Vec<u32>)
    requires
        forall|k: int| 0 <= k < entries@.len() ==> (#[trigger] entries@[k])@.wf(),
    ensures
        out@ == expand_all(entries.deep_view()),
{
    let mut out: Vec<u32> = Vec::new();
    let mut j: usize = 0;
    proof {
        assert(entries.deep_view().take(0) =~= Seq::<GeoRangeV>::empty());
    }
    while j < entries.len()
        invariant
            0 <= j <= entries@.len(),
            entries.deep_view().len() == entries@.len(),
            forall|k: int| 0 <= k < entries@.len() ==> (#[trigger] entries@[k])@.wf(),
            forall|k: int|
                0 <= k < entries@.len() ==> entries.deep_view()[k] == (#[trigger] entries@[k])@,
            out@ == expand_all(entries.deep_view().take(j as int)),
        decreases entries@.len() - j,
    {
        let start = entries[j].ip_start;
        let end = entries[j].ip_end;
        let ghost rv = entries.deep_view()[j as int];
        if end > start && end - start >= 2 {
            let mut cur: u32 = start + 1;
            let last: u32 = end - 1;
            while cur <= last
                invariant
                    rv.ip_start == start,
                    rv.ip_end == end,
                    end > start,
                    end - start >= 2,
                    start + 1 <= cur <= last + 1,
                    last == end - 1,
                    out@ == expand_all(entries.deep_view().take(j as int)) + expand_range(rv).take(
                        cur - (start + 1),
                    ),
                decreases last - cur + 1,
            {
                out.push(cur);
                proof {
                    assert(expand_range(rv).take(cur + 1 - (start + 1)) =~= expand_range(rv).take(
                        cur - (start + 1),
                    ).push(cur));
                }
                cur = cur + 1;
            }
            proof {
                assert(expand_range(rv).take(cur - (start + 1)) =~= expand_range(rv));
            }
        } else {
            proof {
                assert(expand_range(rv) =~= Seq::<u32>::empty());
            }
        }
        proof {
            assert(out@ =~= expand_all(entries.deep_view().take(j as int)) + expand_range(rv));
            lemma_expand_all_push(entries.deep_view().take(j as int), rv);
            assert(entries.deep_view().take(j + 1) =~= entries.deep_view().take(j as int).push(rv));
        }
        j = j + 1;
    }
    proof {
        assert(entries.deep_view().take(entries@.len() as int) =~= entries.deep_view());
    }
    out
}

impl IPGeoDatabase {
    /// Draw one address uniformly from the country's cached list of usable
    /// addresses, building that list from the Range Store on first use.
    pub fn get_random_address(&mut self, country_code: &String) -> (r: Result<u32, LookupError>)
        requires
            old(self).wf(),
        ensures
            final(self).wf(),
            final(self)@.store == old(self)@.store,
            match r {
                Ok(a) => old(self)@.store.dom().contains(country_code@) && expand_all(
                    old(self)@.store[country_code@],
                ).contains(a) && final(self)@.cache == old(self)@.cache.insert(
                    country_code@,
                    expand_all(old(self)@.store[country_code@]),
                ),
                Err(LookupError::UnknownCountry) => !old(self)@.store.dom().contains(country_code@)
                    && final(self)@ == old(self)@,
                Err(LookupError::EmptyRange) => old(self)@.store.dom().contains(country_code@)
                    && expand_all(old(self)@.store[country_code@]).len() == 0 && final(self)@.cache
                    == old(self)@.cache.insert(country_code@, expand_all(old(self)@.store[country_code@])),
            },
    {
        let si = match find_store_index(&self.ipgeo_data, country_code) {
            None => {
                proof {
                    lemma_store_map_absent(self.ipgeo_data@, country_code@);
                }
                return Err(LookupError::UnknownCountry);
            },
            Some(si) => si,
        };
        proof {
            lemma_store_map_index(self.ipgeo_data@, si as int);
        }
        let ci = match find_cache_index(&self.generated_ips, country_code) {
            Some(ci) => {
                proof {
                    lemma_cache_map_index(self.generated_ips@, ci as int);
                    let k = store_index_of(self.ipgeo_data@, country_code@);
                    if k != si as int {
                        lemma_store_map_index(self.ipgeo_data@, k);
                    }
                    assert(self@.cache.insert(country_code@, self.generated_ips@[ci as int].addrs@)
                        =~~= self@.cache);
                }
                ci
            },
            None => {
                let addrs = expand_entries(&self.ipgeo_data[si].entries);
                let code_copy = self.ipgeo_data[si].code.clone();
                let entry = CountryAddrs { code: code_copy, addrs };
                proof {
                    lemma_cache_map_push(self.generated_ips@, entry);
                    let k = store_index_of(self.ipgeo_data@, country_code@);
                    if k != si as int {
                        lemma_store_map_index(self.ipgeo_data@, k);
                    }
                }
                let ci = self.generated_ips.len();
                self.generated_ips.push(entry);
                ci
            },
        };
        let n = self.generated_ips[ci].addrs.len();
        if n == 0 {
            return Err(LookupError::EmptyRange);
        }
        let pick = (random_u64() % (n as u64)) as usize;
        let a = self.generated_ips[ci].addrs[pick];
        proof {
            assert(self.generated_ips@[ci as int].addrs@[pick as int] == a);
            assert(expand_all(old(self)@.store[country_code@]).contains(a));
        }
        Ok(a)
    }

    /// Replace the Range Store's entries for every country named in the
    /// batch, keep every other country, and drop the whole Address Cache.
    fn commit_batch(&mut self, batch: Vec<GeoRange>)
        requires
            old(self).wf(),
            forall|t: int| 0 <= t < batch@.len() ==> (#[trigger] batch@[t])@.wf(),
        ensures
            final(self).wf(),
            final(self)@.store == commit_store(old(self)@.store, batch.deep_view()),
            final(self)@.cache == Map::<Seq<char>, Seq<u32>>::empty(),
    {
        let groups = group_batch(&batch);
        let ghost gs = groups@;
        let ghost full = batch.deep_view();
        let ghost v0 = self.ipgeo_data@;
        self.merge_groups(groups);
        proof {
            assert forall|c: Seq<char>| !cache_has_code(self.generated_ips@, c) by {
                if cache_has_code(self.generated_ips@, c) {
                    let i = choose|i: int|
                        0 <= i < self.generated_ips@.len() && self.generated_ips@[i].code@ == c;
                }
            }
            assert(cache_map(self.generated_ips@) =~~= Map::<Seq<char>, Seq<u32>>::empty());
            let m1 = store_map(self.ipgeo_data@);
            let m2 = commit_store(store_map(v0), full);
            assert forall|c: Seq<char>| m2.dom().contains(c) implies m1.dom().contains(c) by {
                if batch_has_code(full, c) {
                    assert(store_has_code(gs, c));
                    let g = choose|g: int| 0 <= g < gs.len() && gs[g].code@ == c;
                    assert(m1.dom().contains(gs[g].code@));
                } else {
                    assert(!store_has_code(gs, c));
                    assert(m1.dom().contains(c));
                }
            }
            assert forall|c: Seq<char>| m1.dom().contains(c) implies m2.dom().contains(c) by {
                if store_has_code(gs, c) {
                    assert(batch_has_code(full, c));
                } else {
                    assert(store_map(v0).dom().contains(c));
                }
            }
            assert(m1.dom() =~= m2.dom());
            assert forall|c: Seq<char>| m1.dom().contains(c) implies m1[c] == m2[c] by {
                if batch_has_code(full, c) {
                    assert(store_has_code(gs, c));
                    let g = choose|g: int| 0 <= g < gs.len() && gs[g].code@ == c;
                    assert(m1[gs[g].code@] == gs[g].entries.deep_view());
                    assert(m2[c] == recs_for(full, c));
                } else {
                    assert(!store_has_code(gs, c));
                    assert(m1[c] == store_map(v0)[c]);
                }
            }
            assert(m1 =~= m2);
        }
    }

    /// Parse the whole source blob and commit it atomically: on success
    /// the batch replaces the ranges of every country it names and empties
    /// the Address Cache; on the first record that fails to parse, nothing
    /// at all is committed and the error names that record.
    pub fn set_underlying_data(&mut self, source: String) -> (r: Result<bool, ParseError>)
        requires
            old(self).wf(),
        ensures
            final(self).wf(),
            match r {
                Ok(b) => b && (forall|i: int|
                    0 <= i < record_lines(source@).len() ==> (#[trigger] spec_parse_record(
                        record_lines(source@)[i],
                    )) is Ok) && final(self)@.store == commit_store(
                    old(self)@.store,
                    parsed_records(record_lines(source@)),
                ) && final(self)@.cache == Map::<Seq<char>, Seq<u32>>::empty(),
                Err(e) => e.record_index < record_lines(source@).len() && spec_parse_record(
                    record_lines(source@)[e.record_index as int],
                ) == Err::<GeoRangeV, ParseErrorKind>(e.kind) && (forall|i: int|
                    0 <= i < e.record_index ==> (#[trigger] spec_parse_record(
                        record_lines(source@)[i],
                    )) is Ok) && e.record@ == record_lines(source@)[e.record_index as int]
                    && final(self)@ == old(self)@,
            },
    {
        let trimmed = trim_str(source.as_str());
        let lines = split_str(trimmed.as_str(), '\n');
        let ghost rls = record_lines(source@);
        proof {
            assert(lines.deep_view().skip(1) =~= rls);
        }
        let mut staged: Vec<GeoRange> = Vec::new();
        let mut i: usize = 1;
        while i < lines.len()
            invariant
                old(self).wf(),
                *self == *old(self),
                1 <= i <= lines@.len(),
                lines.deep_view() == split_sep(trim_seq(source@), '\n'),
                lines@.len() == lines.deep_view().len(),
                rls == record_lines(source@),
                lines.deep_view().skip(1) == rls,
                rls.len() == lines@.len() - 1,
                forall|t: int|
                    0 <= t < i - 1 ==> (#[trigger] spec_parse_record(rls[t])) is Ok,
                staged.deep_view().len() == i - 1,
                staged@.len() == i - 1,
                forall|t: int|
                    0 <= t < i - 1 ==> staged.deep_view()[t] == spec_parse_record(rls[t])->Ok_0,
                forall|t: int| 0 <= t < staged@.len() ==> (#[trigger] staged@[t])@.wf(),
            decreases lines@.len() - i,
        {
            proof {
                assert(lines.deep_view()[i as int] == rls[i - 1]);
            }
            let res = parse_record(lines[i].as_str());
            match res {
                Ok(g) => {
                    let ghost sdv = staged.deep_view();
                    let ghost gv = g@;
                    staged.push(g);
                    proof {
                        assert(staged.deep_view() =~= sdv.push(gv));
                    }
                },
                Err(kind) => {
                    let rec_copy = lines[i].clone();
                    return Err(ParseError { record_index: i - 1, record: rec_copy, kind });
                },
            }
            i = i + 1;
        }
        proof {
            assert(staged.deep_view() =~= parsed_records(rls));
        }
        self.commit_batch(staged);
        Ok(true)
    }

    /// How many countries the Range Store holds.
    pub fn country_count(&self) -> (n: usize)
        requires
            self.wf(),
        ensures
            n as nat == self@.store.dom().len(),
    {
        proof {
            lemma_store_map_card(self.ipgeo_data@);
        }
        self.ipgeo_data.len()
    }

    /// How many countries have a cached address list.
    pub fn cached_country_count(&self) -> (n: usize)
        requires
            self.wf(),
        ensures
            n as nat == self@.cache.dom().len(),
    {
        proof {
            lemma_cache_map_card(self.generated_ips@);
        }
        self.generated_ips.len()
    }

    /// Pick one of the stored country codes at random; nothing when the
    /// Range Store is empty.
    pub fn get_random_country_code(&self) -> (r: Option<String>)
        requires
            self.wf(),
        ensures
            r is None <==> self@.store.dom() == Set::<Seq<char>>::empty(),
            r is Some ==> self@.store.dom().contains(r->Some_0@),
    {
        let n = self.ipgeo_data.len();
        if n == 0 {
            proof {
                lemma_store_map_absent(self.ipgeo_data@, arbitrary());
                assert(self@.store.dom() =~= Set::<Seq<char>>::empty());
            }
            None
        } else {
            let pick = (random_u64() % (n as u64)) as usize;
            proof {
                lemma_store_map_index(self.ipgeo_data@, pick as int);
                assert(self@.store.dom().contains(self.ipgeo_data@[pick as int].code@));
            }
            Some(self.ipgeo_data[pick].code.clone())
        }
    }
}

spec fn groups_prefix_has(gs: Seq<CountryRanges>, p: int, c: Seq<char>) -> bool {
    exists|g: int| 0 <= g < p && gs[g].code@ == c
}

fn dup_range(r: &GeoRange) -> (g: GeoRange)
    ensures
        g@ == r@,
{
    GeoRange {
        country_code: r.country_code.clone(),
        ip_start: r.ip_start,
        ip_end: r.ip_end,
        total_ips: r.total_ips,
    }
}

/// Group a batch of records by country code, keeping batch order within
/// each group.
#[verifier::loop_isolation(false)]
fn group_batch(batch: &Vec<GeoRange>) -> (groups: Vec<CountryRanges>)
    requires
        forall|t: int| 0 <= t < batch@.len() ==> (#[trigger] batch@[t])@.wf(),
    ensures
        distinct_codes(groups@),
        forall|g: int|
            0 <= g < groups@.len() ==> (#[trigger] groups@[g]).entries.deep_view() == recs_for(
                batch.deep_view(),
                groups@[g].code@,
            ),
        forall|g: int, e: int|
            0 <= g < groups@.len() && 0 <= e < groups@[g].entries@.len() ==> (
            #[trigger] groups@[g].entries@[e])@.wf() && groups@[g].entries@[e].country_code@
                == groups@[g].code@,
        forall|c: Seq<char>| batch_has_code(batch.deep_view(), c) <==> store_has_code(groups@, c),
{
    let ghost full = batch.deep_view();
    let mut groups: Vec<CountryRanges> = Vec::new();
    let mut k: usize = 0;
    proof {
        assert(full.take(0) =~= Seq::<GeoRangeV>::empty());
    }
    while k < batch.len()
        invariant
            0 <= k <= batch@.len(),
            distinct_codes(groups@),
            forall|g: int|
                0 <= g < groups@.len() ==> (#[trigger] groups@[g]).entries.deep_view() == recs_for(
                    full.take(k as int),
                    groups@[g].code@,
                ),
            forall|g: int, e: int|
                0 <= g < groups@.len() && 0 <= e < groups@[g].entries@.len() ==> (
                #[trigger] groups@[g].entries@[e])@.wf() && groups@[g].entries@[e].country_code@
                    == groups@[g].code@,
            forall|g: int|
                0 <= g < groups@.len() ==> batch_has_code(
                    full.take(k as int),
                    (#[trigger] groups@[g]).code@,
                ),
            forall|t: int|
                0 <= t < k ==> store_has_code(groups@, (#[trigger] full[t]).country_code),
        decreases batch@.len() - k,
    {
        let rec = dup_range(&batch[k]);
        let ghost rv = full[k as int];
        proof {
            assert(full.take(k + 1) =~= full.take(k as int).push(rv));
        }
        let ghost gs1 = groups@;
        match find_store_index(&groups, &rec.country_code) {
            Some(gi) => {
                let ghost c0 = gs1[gi as int].code@;
                let mut grp = groups.remove(gi);
                grp.entries.push(rec);
                let ghost new_entries_dv = grp.entries.deep_view();
                groups.insert(gi, grp);
                proof {
                    assert(groups@.len() == gs1.len());
                    assert forall|g: int| 0 <= g < gs1.len() && g != gi implies groups@[g]
                        == gs1[g] by {
                        assert(groups@ =~= gs1.subrange(0, gi as int).push(groups@[gi as int])
                            + gs1.subrange(gi + 1, gs1.len() as int));
                    }
                    assert(groups@[gi as int].code@ == c0);
                    assert(groups@[gi as int].entries.deep_view() =~= gs1[gi as int].entries.deep_view().push(
                        rv,
                    ));
                    assert forall|g: int| 0 <= g < groups@.len() implies (
                    #[trigger] groups@[g]).entries.deep_view() == recs_for(
                        full.take(k + 1),
                        groups@[g].code@,
                    ) by {
                        lemma_recs_for_push(full.take(k as int), rv, groups@[g].code@);
                        if g != gi {
                            assert(groups@[g] == gs1[g]);
                            if g < gi {
                                assert(gs1[g].code@ != gs1[gi as int].code@);
                            } else {
                                assert(gs1[gi as int].code@ != gs1[g].code@);
                            }
                        }
                    }
                    assert forall|t: int| 0 <= t < k + 1 implies store_has_code(
                        groups@,
                        (#[trigger] full[t]).country_code,
                    ) by {
                        if t < k {
                            let w = choose|w: int|
                                0 <= w < gs1.len() && gs1[w].code@ == full[t].country_code;
                            assert(groups@[w].code@ == full[t].country_code);
                        } else {
                            assert(groups@[gi as int].code@ == rv.country_code);
                        }
                    }
                    assert forall|g: int| 0 <= g < groups@.len() implies batch_has_code(
                        full.take(k + 1),
                        (#[trigger] groups@[g]).code@,
                    ) by {
                        let w = choose|w: int|
                            0 <= w < k && full.take(k as int)[w].country_code == groups@[g].code@;
                        if batch_has_code(full.take(k as int), groups@[g].code@) {
                            assert(full.take(k + 1)[w].country_code == groups@[g].code@);
                        }
                    }
                }
            },
            None => {
                let mut entries: Vec<GeoRange> = Vec::new();
                let code_copy = rec.country_code.clone();
                let ghost c0 = rv.country_code;
                entries.push(rec);
                groups.push(CountryRanges { code: code_copy, entries });
                proof {
                    assert forall|t: int| 0 <= t < k implies (#[trigger] full[t]).country_code
                        != c0 by {
                        let w = choose|w: int|
                            0 <= w < gs1.len() && gs1[w].code@ == full[t].country_code;
                        assert(gs1[w].code@ != c0);
                    }
                    assert forall|t: int| 0 <= t < k implies (#[trigger] full.take(
                        k as int,
                    )[t]).country_code != c0 by {
                        assert(full.take(k as int)[t] == full[t]);
                    }
                    lemma_recs_for_none(full.take(k as int), c0);
                    assert(groups@.len() == gs1.len() + 1);
                    assert(groups@[gs1.len() as int].code@ == c0);
                    assert(groups@[gs1.len() as int].entries.deep_view() =~= Seq::<
                        GeoRangeV,
                    >::empty().push(rv));
                    assert forall|g: int| 0 <= g < groups@.len() implies (
                    #[trigger] groups@[g]).entries.deep_view() == recs_for(
                        full.take(k + 1),
                        groups@[g].code@,
                    ) by {
                        lemma_recs_for_push(full.take(k as int), rv, groups@[g].code@);
                        if g < gs1.len() {
                            assert(groups@[g] == gs1[g]);
                            assert(gs1[g].code@ != c0);
                        } else {
                            assert(recs_for(full.take(k + 1), c0) =~= Seq::<
                                GeoRangeV,
                            >::empty().push(rv));
                        }
                    }
                    assert forall|t: int| 0 <= t < k + 1 implies store_has_code(
                        groups@,
                        (#[trigger] full[t]).country_code,
                    ) by {
                        if t < k {
                            let w = choose|w: int|
                                0 <= w < gs1.len() && gs1[w].code@ == full[t].country_code;
                            assert(groups@[w].code@ == full[t].country_code);
                        } else {
                            assert(groups@[gs1.len() as int].code@ == full[t].country_code);
                        }
                    }
                    assert forall|g: int| 0 <= g < groups@.len() implies batch_has_code(
                        full.take(k + 1),
                        (#[trigger] groups@[g]).code@,
                    ) by {
                        if g < gs1.len() {
                            let w = choose|w: int|
                                0 <= w < k && full.take(k as int)[w].country_code
                                    == groups@[g].code@;
                            if batch_has_code(full.take(k as int), groups@[g].code@) {
                                assert(full.take(k + 1)[w].country_code == groups@[g].code@);
                            }
                        } else {
                            assert(full.take(k + 1)[k as int].country_code == groups@[g].code@);
                        }
                    }
                }
            },
        }
        k = k + 1;
    }
    proof {
        assert(full.take(k as int) =~= full);
        assert forall|c: Seq<char>|
            batch_has_code(full, c) <==> store_has_code(groups@, c) by {
            if batch_has_code(full, c) {
                let t = choose|t: int| 0 <= t < full.len() && full[t].country_code == c;
                assert(store_has_code(groups@, full[t].country_code));
            }
            if store_has_code(groups@, c) {
                let g = choose|g: int| 0 <= g < groups@.len() && groups@[g].code@ == c;
                assert(batch_has_code(full, groups@[g].code@));
            }
        }
    }
    groups
}

impl IPGeoDatabase {
    /// Fold grouped batch records into the Range Store, replacing the
    /// entries of every country a group names, and drop the whole cache.
    #[verifier::loop_isolation(false)]
    fn merge_groups(&mut self, groups: Vec<CountryRanges>)
        requires
            distinct_codes(old(self).ipgeo_data@),
            forall|i: int, e: int|
                0 <= i < old(self).ipgeo_data@.len() && 0 <= e
                    < old(self).ipgeo_data@[i].entries@.len() ==> (
                #[trigger] old(self).ipgeo_data@[i].entries@[e])@.wf()
                    && old(self).ipgeo_data@[i].entries@[e].country_code@
                    == old(self).ipgeo_data@[i].code@,
            distinct_codes(groups@),
            forall|g: int, e: int|
                0 <= g < groups@.len() && 0 <= e < groups@[g].entries@.len() ==> (
                #[trigger] groups@[g].entries@[e])@.wf() && groups@[g].entries@[e].country_code@
                    == groups@[g].code@,
        ensures
            distinct_codes(final(self).ipgeo_data@),
            forall|i: int, e: int|
                0 <= i < final(self).ipgeo_data@.len() && 0 <= e
                    < final(self).ipgeo_data@[i].entries@.len() ==> (
                #[trigger] final(self).ipgeo_data@[i].entries@[e])@.wf()
                    && final(self).ipgeo_data@[i].entries@[e].country_code@
                    == final(self).ipgeo_data@[i].code@,
            final(self).generated_ips@ == Seq::<CountryAddrs>::empty(),
            forall|c: Seq<char>|
                store_map(old(self).ipgeo_data@).dom().contains(c) && !store_has_code(groups@, c)
                    ==> store_map(final(self).ipgeo_data@).dom().contains(c) && store_map(
                    final(self).ipgeo_data@,
                )[c] == store_map(old(self).ipgeo_data@)[c],
            forall|g: int|
                0 <= g < groups@.len() ==> store_map(final(self).ipgeo_data@).dom().contains(
                    (#[trigger] groups@[g]).code@,
                ) && store_map(final(self).ipgeo_data@)[groups@[g].code@]
                    == groups@[g].entries.deep_view(),
            forall|c: Seq<char>|
                store_map(final(self).ipgeo_data@).dom().contains(c) ==> store_map(
                    old(self).ipgeo_data@,
                ).dom().contains(c) || store_has_code(groups@, c),
    {
        let ghost gs0 = groups@;
        let ghost v0 = self.ipgeo_data@;
        self.generated_ips.clear();
        let mut groups = groups;
        let ghost mut processed: int = 0;
        while groups.len() > 0
            invariant
                0 <= processed <= gs0.len(),
                groups@ == gs0.skip(processed),
                distinct_codes(self.ipgeo_data@),
                forall|i: int, e: int|
                    0 <= i < self.ipgeo_data@.len() && 0 <= e
                        < self.ipgeo_data@[i].entries@.len() ==> (
                    #[trigger] self.ipgeo_data@[i].entries@[e])@.wf()
                        && self.ipgeo_data@[i].entries@[e].country_code@
                        == self.ipgeo_data@[i].code@,
                self.generated_ips@ == Seq::<CountryAddrs>::empty(),
                forall|c: Seq<char>|
                    store_map(v0).dom().contains(c) && !groups_prefix_has(gs0, processed, c)
                        ==> store_map(self.ipgeo_data@).dom().contains(c) && store_map(
                        self.ipgeo_data@,
                    )[c] == store_map(v0)[c],
                forall|g: int|
                    0 <= g < processed ==> store_map(self.ipgeo_data@).dom().contains(
                        (#[trigger] gs0[g]).code@,
                    ) && store_map(self.ipgeo_data@)[gs0[g].code@]
                        == gs0[g].entries.deep_view(),
                forall|c: Seq<char>|
                    store_map(self.ipgeo_data@).dom().contains(c) ==> store_map(
                        v0,
                    ).dom().contains(c) || groups_prefix_has(gs0, processed, c),
            decreases groups@.len(),
        {
            let grp = groups.remove(0);
            proof {
                assert(grp == gs0[processed]);
                assert(groups@ =~= gs0.skip(processed + 1));
            }
            let ghost v_before = self.ipgeo_data@;
            let ghost c0 = gs0[processed].code@;
            let found = find_store_index(&self.ipgeo_data, &grp.code);
            match found {
                Some(i) => {
                    proof {
                        lemma_store_map_update(v_before, i as int, gs0[processed]);
                    }
                    self.ipgeo_data.remove(i);
                    self.ipgeo_data.insert(i, grp);
                    proof {
                        assert(self.ipgeo_data@ =~= v_before.update(i as int, gs0[processed]));
                    }
                },
                None => {
                    proof {
                        lemma_store_map_push(v_before, gs0[processed]);
                    }
                    self.ipgeo_data.push(grp);
                },
            }
            proof {
                let m_old = store_map(v_before);
                let p = processed;
                processed = processed + 1;
                assert(store_map(self.ipgeo_data@) == m_old.insert(
                    c0,
                    gs0[p].entries.deep_view(),
                ));
                assert(gs0[p].code@ == c0);
                assert(groups_prefix_has(gs0, processed, c0));
                assert forall|c: Seq<char>|
                    store_map(v0).dom().contains(c) && !groups_prefix_has(gs0, processed, c)
                        implies store_map(self.ipgeo_data@).dom().contains(c) && store_map(
                        self.ipgeo_data@,
                    )[c] == store_map(v0)[c] by {
                    assert(c != c0);
                    if groups_prefix_has(gs0, p, c) {
                        let g = choose|g: int| 0 <= g < p && gs0[g].code@ == c;
                        assert(groups_prefix_has(gs0, processed, c));
                    }
                    assert(m_old.dom().contains(c) && m_old[c] == store_map(v0)[c]);
                }
                assert forall|g: int| 0 <= g < processed implies store_map(
                    self.ipgeo_data@,
                ).dom().contains((#[trigger] gs0[g]).code@) && store_map(
                    self.ipgeo_data@,
                )[gs0[g].code@] == gs0[g].entries.deep_view() by {
                    if g < p {
                        if gs0[g].code@ == c0 {
                            assert(gs0[g].code@ != gs0[p].code@);
                        }
                    }
                }
                assert forall|c: Seq<char>|
                    store_map(self.ipgeo_data@).dom().contains(c) implies store_map(
                        v0,
                    ).dom().contains(c) || groups_prefix_has(gs0, processed, c) by {
                    if c == c0 {
                        assert(gs0[p].code@ == c);
                    } else {
                        assert(m_old.dom().contains(c));
                        if groups_prefix_has(gs0, p, c) {
                            let g = choose|g: int| 0 <= g < p && gs0[g].code@ == c;
                            assert(groups_prefix_has(gs0, processed, c));
                        }
                    }
                }
            }
        }
        proof {
            assert(processed == gs0.len());
            assert forall|c: Seq<char>|
                store_has_code(gs0, c) implies groups_prefix_has(gs0, gs0.len() as int, c) by {
            }
            assert forall|c: Seq<char>|
                groups_prefix_has(gs0, gs0.len() as int, c) implies store_has_code(gs0, c) by {
            }
        }
    }
}

proof fn lemma_store_map_card(v: Seq<CountryRanges>)
    requires
        distinct_codes(v),
    ensures
        store_map(v).dom().finite(),
        store_map(v).dom().len() == v.len(),
    decreases v.len(),
{
    if v.len() == 0 {
        assert forall|c: Seq<char>| !store_map(v).dom().contains(c) by {
            lemma_store_map_absent(v, c);
        }
        assert(store_map(v).dom() =~= Set::<Seq<char>>::empty());
    } else {
        let v1 = v.drop_last();
        assert(distinct_codes(v1));
        assert forall|j: int| 0 <= j < v1.len() implies v1[j].code@ != v.last().code@ by {
            assert(v[j].code@ != v[v.len() - 1].code@);
        }
        lemma_store_map_card(v1);
        lemma_store_map_push(v1, v.last());
        assert(v1.push(v.last()) =~= v);
        lemma_store_map_absent(v1, v.last().code@);
        assert(store_map(v).dom() =~= store_map(v1).dom().insert(v.last().code@));
    }
}

proof fn lemma_cache_map_card(v: Seq<CountryAddrs>)
    requires
        distinct_cache_codes(v),
    ensures
        cache_map(v).dom().finite(),
        cache_map(v).dom().len() == v.len(),
    decreases v.len(),
{
    if v.len() == 0 {
        assert forall|c: Seq<char>| !cache_map(v).dom().contains(c) by {
            lemma_cache_map_absent(v, c);
        }
        assert(cache_map(v).dom() =~= Set::<Seq<char>>::empty());
    } else {
        let v1 = v.drop_last();
        assert(distinct_cache_codes(v1));
        assert forall|j: int| 0 <= j < v1.len() implies v1[j].code@ != v.last().code@ by {
            assert(v[j].code@ != v[v.len() - 1].code@);
        }
        lemma_cache_map_card(v1);
        lemma_cache_map_push(v1, v.last());
        assert(v1.push(v.last()) =~= v);
        lemma_cache_map_absent(v1, v.last().code@);
        assert(cache_map(v).dom() =~= cache_map(v1).dom().insert(v.last().code@));
    }
}

/// Every range held by a well-formed database is valid: its start does
/// not exceed its end. Ingestion rejects a record whose range is inverted
/// and commits nothing of the batch that carried it.
pub proof fn lemma_store_ranges_valid(db: IPGeoDatabase, c: Seq<char>, i: int)
    requires
        db.wf(),
        db@.store.dom().contains(c),
        0 <= i < db@.store[c].len(),
    ensures
        db@.store[c][i].wf(),
{
    let j = choose|j: int| 0 <= j < db.ipgeo_data@.len() && db.ipgeo_data@[j].code@ == c;
    lemma_store_map_index(db.ipgeo_data@, j);
    assert(db.ipgeo_data@[j].entries.deep_view()[i] == db.ipgeo_data@[j].entries@[i]@);
}

/// Every address a lookup can return for a country lies strictly inside
/// one of that same country's ranges: strictly above some stored range's
/// start and strictly below its end.
pub proof fn lemma_address_within_country_range(db: IPGeoDatabase, c: Seq<char>, a: u32)
    requires
        db.wf(),
        db@.store.dom().contains(c),
        expand_all(db@.store[c]).contains(a),
    ensures
        exists|i: int|
            0 <= i < db@.store[c].len() && db@.store[c][i].ip_start < a && a
                < db@.store[c][i].ip_end,
{
    let k = choose|k: int|
        0 <= k < expand_all(db@.store[c]).len() && expand_all(db@.store[c])[k] == a;
    lemma_expanded_address_in_range(db@.store[c], k);
}

} // verus!
