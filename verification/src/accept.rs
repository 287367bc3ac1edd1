//! `Accept-Encoding` header, defined in RFC 7231 §5.3.4: a comma-separated
//! list of content-codings, each with an optional quality weight, queried
//! as a priority-ordered sequence and re-encodable to wire text.

use vstd::prelude::*;
use vstd::string::*;
use crate::chars::{
    find_first,
    is_ows,
    lemma_find_first_bounds,
    lemma_find_first_is,
    lemma_trim_shape,
    no_char,
    trim,
};
use crate::encoding::{lemma_parse_coding_name, wildcard, Encoding, EncodingView};
use crate::quality::{
    format_item,
    item_wf,
    lemma_format_item_shape,
    lemma_parse_format_item,
    lemma_parse_weight_ok_range,
    parse_item,
    QualityValue,
    QualityValueView,
};

verus! {

/// The views of a sequence of weighted codings.
pub open spec fn views_of(s: Seq<QualityValue>) -> Seq<QualityValueView> {
    s.map_values(|q: QualityValue| q@)
}

/// The views of a sequence of owned strings.
pub open spec fn texts_of(s: Seq<String>) -> Seq<Seq<char>> {
    s.map_values(|t: String| t@)
}

/// The views of a sequence of codings.
pub open spec fn encs_of(s: Seq<Encoding>) -> Seq<EncodingView> {
    s.map_values(|e: Encoding| e@)
}

/// The comma-separated pieces of `s`, in order. The empty text is one
/// (empty) piece; separators are kept out of the pieces.
pub open spec fn split_commas(s: Seq<char>) -> Seq<Seq<char>>
    decreases s.len(),
{
    let i = find_first(s, ',');
    if 0 <= i < s.len() {
        seq![s.subrange(0, i)] + split_commas(s.subrange(i + 1, s.len() as int))
    } else {
        seq![s]
    }
}

/// The items that parse, in order; items that fail to parse are dropped.
pub open spec fn parse_all(items: Seq<Seq<char>>) -> Seq<QualityValueView>
    decreases items.len(),
{
    if items.len() == 0 {
        Seq::<QualityValueView>::empty()
    } else {
        parse_all(items.drop_last()) + (match parse_item(items.last()) {
            Ok(q) => seq![q],
            Err(_) => Seq::<QualityValueView>::empty(),
        })
    }
}

/// The entries of a field with backing text `text`, in textual order:
/// every comma-separated item that parses.
pub open spec fn parsed_list(text: Seq<char>) -> Seq<QualityValueView> {
    parse_all(split_commas(text))
}

/// Weakly ascending by weight: the order in which entries are yielded,
/// matching the plain numeric order of the quality comparator.
pub open spec fn sorted_by_weight(s: Seq<QualityValueView>) -> bool {
    forall|i: int, j: int| 0 <= i <= j < s.len() ==> s[i].weight <= s[j].weight
}

/// Insertion of `x` into a weight-sorted list, after every element whose
/// weight does not exceed `x`'s: the stable position.
pub open spec fn insert_ordered(s: Seq<QualityValueView>, x: QualityValueView) -> Seq<
    QualityValueView,
>
    decreases s.len(),
{
    if s.len() == 0 {
        seq![x]
    } else if s.last().weight <= x.weight {
        s.push(x)
    } else {
        insert_ordered(s.drop_last(), x).push(s.last())
    }
}

/// Stable sort by weight: insertion sort, ascending, keeping the original
/// relative order of equal weights.
pub open spec fn sort_by_weight(s: Seq<QualityValueView>) -> Seq<QualityValueView>
    decreases s.len(),
{
    if s.len() == 0 {
        Seq::<QualityValueView>::empty()
    } else {
        insert_ordered(sort_by_weight(s.drop_last()), s.last())
    }
}

/// The entries of the field in the order `iter` yields them: the parsed
/// items, stably sorted by their weight comparator, so that items of equal
/// weight keep their original left-to-right order.
pub open spec fn items_in_priority(text: Seq<char>) -> Seq<QualityValueView> {
    sort_by_weight(parsed_list(text))
}

/// Whether one entry grants acceptance of the coding `e`: it must carry
/// nonzero weight and name either `e` itself or the wildcard.
pub open spec fn entry_grants(q: QualityValueView, e: EncodingView) -> bool {
    q.weight > 0 && (q.coding == wildcard() || q.coding == e)
}

/// Whether a field with backing text `text` accepts the coding `e`: some
/// listed entry grants it. An entry with weight exactly zero grants
/// nothing, even the wildcard.
pub open spec fn accepts_coding(text: Seq<char>, e: EncodingView) -> bool {
    exists|i: int| 0 <= i < parsed_list(text).len() && entry_grants(parsed_list(text)[i], e)
}

/// The wire text that encodes the given entries: each formatted, joined
/// with `", "`.
pub open spec fn join_items(s: Seq<QualityValueView>) -> Seq<char>
    decreases s.len(),
{
    if s.len() == 0 {
        Seq::<char>::empty()
    } else if s.len() == 1 {
        format_item(s[0])
    } else {
        join_items(s.drop_last()) + ", "@ + format_item(s.last())
    }
}

/// Comma-free text is a single piece.
pub proof fn lemma_split_no_comma(s: Seq<char>)
    requires
        forall|j: int| 0 <= j < s.len() ==> s[j] != ',',
    ensures
        split_commas(s) == seq![s],
{
    lemma_find_first_is(s, ',', s.len() as int);
}

/// The piece before the first comma is split off whole.
pub proof fn lemma_split_concat(u: Seq<char>, v: Seq<char>)
    requires
        forall|j: int| 0 <= j < u.len() ==> u[j] != ',',
    ensures
        split_commas(u + seq![','] + v) == seq![u] + split_commas(v),
{
    let s = u + seq![','] + v;
    assert(forall|j: int| 0 <= j < u.len() ==> s[j] == u[j]);
    assert(s[u.len() as int] == ',');
    lemma_find_first_is(s, ',', u.len() as int);
    assert(s.subrange(0, u.len() as int) =~= u);
    assert(s.subrange(u.len() as int + 1, s.len() as int) =~= v);
}

/// `Accept-Encoding` header, defined in
/// [RFC7231](https://datatracker.ietf.org/doc/html/rfc7231#section-5.3.4)
///
/// The `Accept-Encoding` header field can be used by user agents to
/// indicate what response content-codings are acceptable in the response.
/// An `identity` token is used as a synonym for "no encoding" in order to
/// communicate when no encoding is preferred.
///
/// # ABNF
///
/// ```text
/// Accept-Encoding  = #( codings [ weight ] )
/// codings          = content-coding / "identity" / "*"
/// ```
///
/// # Example values
/// * `compress, gzip`
/// * ``
/// * `*`
/// * `compress;q=0.5, gzip;q=1`
/// * `gzip;q=1.0, identity; q=0.5, *;q=0`
#[derive(Debug)]
pub struct AcceptEncoding {
    text: String,
}

impl View for AcceptEncoding {
    type V = Seq<char>;

    closed spec fn view(&self) -> Seq<char> {
        self.text@
    }
}

impl Clone for AcceptEncoding {
    /// The clone carries the same backing text.
    fn clone(&self) -> (r: AcceptEncoding)
        ensures
            r@ == self@,
    {
        AcceptEncoding { text: self.text.clone() }
    }
}

impl PartialEq for AcceptEncoding {
    fn eq(&self, other: &AcceptEncoding) -> (r: bool) {
        crate::chars::str_eq(self.text.as_str(), other.text.as_str())
    }
}

impl vstd::std_specs::cmp::PartialEqSpecImpl for AcceptEncoding {
    open spec fn obeys_eq_spec() -> bool {
        true
    }

    open spec fn eq_spec(&self, other: &AcceptEncoding) -> bool {
        self@ == other@
    }
}

/// The comma-separated pieces of `s` as owned strings.
#[verifier::loop_isolation(false)]
fn split_text(s: &str) -> (r: Vec<String>)
    ensures
        texts_of(r@) == split_commas(s@),
{
    let n = s.unicode_len();
    let mut parts: Vec<String> = Vec::new();
    let mut seg_start: usize = 0;
    let mut i: usize = 0;
    proof {
        assert(s@.subrange(0, n as int) =~= s@);
        assert(texts_of(parts@) + split_commas(s@) =~= split_commas(s@));
    }
    while i < n
        invariant
            0 <= seg_start <= i <= n,
            forall|j: int| seg_start <= j < i ==> s@[j] != ',',
            split_commas(s@) == texts_of(parts@) + split_commas(
                s@.subrange(seg_start as int, n as int),
            ),
        decreases n - i,
    {
        if s.get_char(i) == ',' {
            let piece = s.substring_char(seg_start, i);
            let ghost old_parts = parts@;
            parts.push(String::from_str(piece));
            proof {
                let t = s@.subrange(seg_start as int, n as int);
                let u = s@.subrange(seg_start as int, i as int);
                let v = s@.subrange(i + 1, n as int);
                assert(t =~= u + seq![','] + v);
                assert(forall|j: int| 0 <= j < u.len() ==> u[j] == s@[seg_start + j]);
                lemma_split_concat(u, v);
                assert(texts_of(parts@) =~= texts_of(old_parts).push(u));
                assert(texts_of(old_parts) + (seq![u] + split_commas(v)) =~= texts_of(parts@)
                    + split_commas(v));
            }
            seg_start = i + 1;
        }
        i = i + 1;
    }
    let piece = s.substring_char(seg_start, n);
    let ghost old_parts = parts@;
    parts.push(String::from_str(piece));
    proof {
        let t = s@.subrange(seg_start as int, n as int);
        lemma_split_no_comma(t);
        assert(texts_of(parts@) =~= texts_of(old_parts).push(t));
        assert(texts_of(old_parts) + seq![t] =~= texts_of(parts@));
    }
    parts
}

impl AcceptEncoding {
    /// Wraps the raw field text, such as `"compress, gzip;q=0.5"`.
    pub fn from_text(text: String) -> (r: AcceptEncoding)
        ensures
            r@ == text@,
    {
        AcceptEncoding { text }
    }

    /// The backing wire text.
    pub fn text(&self) -> (r: &str)
        ensures
            r@ == self@,
    {
        self.text.as_str()
    }

    /// The parsed entries in textual order: every comma-separated item
    /// that parses; malformed items are silently dropped.
    #[verifier::loop_isolation(false)]
    fn parsed_values(&self) -> (r: Vec<QualityValue>)
        ensures
            views_of(r@) == parsed_list(self@),
    {
        let parts = split_text(self.text.as_str());
        let mut vals: Vec<QualityValue> = Vec::new();
        let n = parts.len();
        let mut i: usize = 0;
        proof {
            assert(texts_of(parts@).subrange(0, 0) =~= Seq::<Seq<char>>::empty());
        }
        while i < n
            invariant
                0 <= i <= n,
                n == parts@.len(),
                views_of(vals@) == parse_all(texts_of(parts@).subrange(0, i as int)),
            decreases n - i,
        {
            let ghost ts = texts_of(parts@);
            let ghost old_vals = vals@;
            proof {
                assert(ts.subrange(0, i + 1).drop_last() =~= ts.subrange(0, i as int));
                assert(ts.subrange(0, i + 1).last() == parts@[i as int]@);
            }
            match QualityValue::parse(parts[i].as_str()) {
                Ok(q) => {
                    vals.push(q);
                    proof {
                        assert(views_of(vals@) =~= views_of(old_vals).push(q@));
                        assert(views_of(old_vals) + seq![q@] =~= views_of(vals@));
                    }
                },
                Err(_) => {
                    proof {
                        assert(parse_all(ts.subrange(0, i + 1)) =~= parse_all(
                            ts.subrange(0, i as int),
                        ));
                    }
                },
            }
            i = i + 1;
        }
        proof {
            assert(texts_of(parts@).subrange(0, n as int) =~= texts_of(parts@));
        }
        vals
    }

    /// Returns the `QualityValue`s contained within, ordered by priority:
    /// stably sorted by the weight comparator, with equal weights keeping
    /// their original left-to-right order.
    #[verifier::loop_isolation(false)]
    pub fn iter(&self) -> (r: Vec<QualityValue>)
        ensures
            views_of(r@) == items_in_priority(self@),
    {
        let mut vals = self.parsed_values();
        let mut out: Vec<QualityValue> = Vec::new();
        let ghost total = views_of(vals@);
        let ghost done: int = 0;
        while vals.len() > 0
            invariant
                0 <= done <= total.len(),
                total == parsed_list(self@),
                views_of(vals@) == total.subrange(done, total.len() as int),
                views_of(out@) == sort_by_weight(total.subrange(0, done)),
            decreases total.len() - done,
        {
            let ghost old_vals = vals@;
            let x = vals.remove(0);
            proof {
                assert(views_of(old_vals).len() == old_vals.len());
                assert(done < total.len());
                assert(vals@ =~= old_vals.subrange(1, old_vals.len() as int));
                assert(x@ == views_of(old_vals)[0]);
                assert(x@ == total[done]);
                assert forall|t: int| 0 <= t < vals@.len() implies views_of(vals@)[t]
                    == total.subrange(done + 1, total.len() as int)[t] by {
                    assert(views_of(vals@)[t] == vals@[t]@);
                    assert(vals@[t] == old_vals[t + 1]);
                    assert(views_of(old_vals)[t + 1] == old_vals[t + 1]@);
                }
                assert(views_of(vals@) =~= total.subrange(done + 1, total.len() as int));
                lemma_sort_by_weight_sorted(total.subrange(0, done));
            }
            let mut j: usize = out.len();
            while j > 0 && out[j - 1].quality.permille() > x.quality.permille()
                invariant
                    0 <= j <= out@.len(),
                    forall|t: int|
                        j <= t < out@.len() ==> views_of(out@)[t].weight > x@.weight,
                decreases j,
            {
                j = j - 1;
            }
            proof {
                lemma_insert_ordered_at(views_of(out@), x@, j as int);
            }
            let ghost old_out = out@;
            out.insert(j, x);
            proof {
                assert(views_of(out@) =~= views_of(old_out).insert(j as int, x@));
                assert(total.subrange(0, done + 1).drop_last() =~= total.subrange(0, done));
                assert(total.subrange(0, done + 1).last() == total[done]);
                assert(sort_by_weight(total.subrange(0, done + 1)) == insert_ordered(
                    sort_by_weight(total.subrange(0, done)),
                    total[done],
                ));
            }
            proof {
                done = done + 1;
            }
        }
        proof {
            assert(total.subrange(0, total.len() as int) =~= total);
            assert(done == total.len());
        }
        out
    }

    /// Returns just the `Encoding`s contained within, ordered by priority.
    #[verifier::loop_isolation(false)]
    pub fn iter_encodings(&self) -> (r: Vec<Encoding>)
        ensures
            encs_of(r@) == items_in_priority(self@).map_values(|q: QualityValueView| q.coding),
    {
        let mut items = self.iter();
        let mut out: Vec<Encoding> = Vec::new();
        let ghost total = views_of(items@);
        let ghost done: int = 0;
        while items.len() > 0
            invariant
                0 <= done <= total.len(),
                total == items_in_priority(self@),
                views_of(items@) == total.subrange(done, total.len() as int),
                encs_of(out@) == total.subrange(0, done).map_values(
                    |q: QualityValueView| q.coding,
                ),
            decreases total.len() - done,
        {
            let ghost old_out = out@;
            let ghost old_items = items@;
            let q = items.remove(0);
            proof {
                assert(views_of(old_items).len() == old_items.len());
                assert(done < total.len());
                assert(items@ =~= old_items.subrange(1, old_items.len() as int));
                assert(q@ == views_of(old_items)[0]);
                assert(q@ == total[done]);
                assert forall|t: int| 0 <= t < items@.len() implies views_of(items@)[t]
                    == total.subrange(done + 1, total.len() as int)[t] by {
                    assert(views_of(items@)[t] == items@[t]@);
                    assert(items@[t] == old_items[t + 1]);
                    assert(views_of(old_items)[t + 1] == old_items[t + 1]@);
                }
                assert(views_of(items@) =~= total.subrange(done + 1, total.len() as int));
            }
            out.push(q.value);
            proof {
                assert(encs_of(out@) =~= encs_of(old_out).push(q.value@));
                assert(encs_of(old_out).push(q@.coding) =~= total.subrange(0, done + 1)
                    .map_values(|v: QualityValueView| v.coding));
            }
            proof {
                done = done + 1;
            }
        }
        proof {
            assert(total.subrange(0, total.len() as int) =~= total);
        }
        out
    }

    /// Returns whether a certain encoding is accepted: some listed entry
    /// with nonzero weight names it, or the wildcard `*` is listed with
    /// nonzero weight. A zero-weighted entry, wildcard included, grants
    /// nothing.
    #[verifier::loop_isolation(false)]
    pub fn accepts(&self, encoding: &Encoding) -> (r: bool)
        ensures
            r == accepts_coding(self@, encoding@),
    {
        let vals = self.parsed_values();
        let n = vals.len();
        let mut i: usize = 0;
        while i < n
            invariant
                0 <= i <= n,
                n == vals@.len(),
                views_of(vals@) == parsed_list(self@),
                forall|j: int|
                    0 <= j < i ==> !entry_grants(parsed_list(self@)[j], encoding@),
            decreases n - i,
        {
            let v = &vals[i];
            proof {
                assert(parsed_list(self@)[i as int] == v@);
            }
            let nonzero = v.quality.permille() > 0;
            let is_wild = match &v.value {
                Encoding::Ext(s) => crate::chars::str_eq(s.as_str(), "*"),
                _ => false,
            };
            if nonzero && (is_wild || v.value == *encoding) {
                proof {
                    assert(entry_grants(parsed_list(self@)[i as int], encoding@));
                }
                return true;
            }
            proof {
                assert(!entry_grants(parsed_list(self@)[i as int], encoding@));
            }
            i = i + 1;
        }
        false
    }

    /// Builds a field from entries: each is formatted and the results are
    /// joined with `", "`. Construction cannot fail.
    #[verifier::loop_isolation(false)]
    pub fn from_sequence(items: Vec<QualityValue>) -> (r: AcceptEncoding)
        ensures
            r@ == join_items(views_of(items@)),
    {
        let mut text = String::new();
        let n = items.len();
        let mut i: usize = 0;
        while i < n
            invariant
                0 <= i <= n,
                n == items@.len(),
                text@ == join_items(views_of(items@).subrange(0, i as int)),
            decreases n - i,
        {
            if i > 0 {
                text.append(", ");
            }
            let f = items[i].format();
            text.append(f.as_str());
            proof {
                let vs = views_of(items@);
                assert(vs.subrange(0, i + 1).drop_last() =~= vs.subrange(0, i as int));
                assert(vs.subrange(0, i + 1).last() == vs[i as int]);
                assert(vs[i as int] == items@[i as int]@);
                if i == 0 {
                    assert(text@ =~= format_item(vs[0]));
                    assert(vs.subrange(0, 1)[0] == vs[0]);
                } else {
                    assert(text@ =~= join_items(vs.subrange(0, i as int)) + ", "@ + format_item(
                        vs[i as int],
                    ));
                }
            }
            i = i + 1;
        }
        proof {
            assert(views_of(items@).subrange(0, n as int) =~= views_of(items@));
        }
        AcceptEncoding { text }
    }
}

/// Inserting at the stable position: when `j` points just past the last
/// element whose weight does not exceed `x`'s, `insert_ordered` is
/// insertion at index `j`.
pub proof fn lemma_insert_ordered_at(s: Seq<QualityValueView>, x: QualityValueView, j: int)
    requires
        sorted_by_weight(s),
        0 <= j <= s.len(),
        forall|t: int| j <= t < s.len() ==> s[t].weight > x.weight,
        j > 0 ==> s[j - 1].weight <= x.weight,
    ensures
        insert_ordered(s, x) == s.insert(j, x),
    decreases s.len(),
{
    if s.len() == 0 {
        assert(s.insert(0, x) =~= seq![x]);
    } else if s.last().weight <= x.weight {
        assert(j == s.len());
        assert(s.insert(j, x) =~= s.push(x));
    } else {
        assert(j < s.len());
        assert(forall|t: int| j <= t < s.len() - 1 ==> s.drop_last()[t] == s[t]);
        lemma_insert_ordered_at(s.drop_last(), x, j);
        assert(s.drop_last().insert(j, x).push(s.last()) =~= s.insert(j, x));
    }
}

/// Every weight in `insert_ordered(s, x)` is a weight of `s` or of `x`;
/// in particular an upper bound on those weights is kept.
pub proof fn lemma_insert_ordered_bound(s: Seq<QualityValueView>, x: QualityValueView, w: int)
    requires
        forall|i: int| 0 <= i < s.len() ==> s[i].weight <= w,
        x.weight <= w,
    ensures
        forall|i: int| 0 <= i < insert_ordered(s, x).len() ==> insert_ordered(s, x)[i].weight <= w,
    decreases s.len(),
{
    if s.len() == 0 {
    } else if s.last().weight <= x.weight {
    } else {
        lemma_insert_ordered_bound(s.drop_last(), x, w);
    }
}

/// Inserting into a weight-sorted list keeps it weight-sorted.
pub proof fn lemma_insert_ordered_sorted(s: Seq<QualityValueView>, x: QualityValueView)
    requires
        sorted_by_weight(s),
    ensures
        sorted_by_weight(insert_ordered(s, x)),
    decreases s.len(),
{
    if s.len() == 0 {
    } else if s.last().weight <= x.weight {
        assert(forall|i: int| 0 <= i < s.len() ==> s[i].weight <= s.last().weight);
    } else {
        let dl = s.drop_last();
        lemma_insert_ordered_sorted(dl, x);
        assert(forall|i: int| 0 <= i < dl.len() ==> dl[i].weight <= s.last().weight);
        lemma_insert_ordered_bound(dl, x, s.last().weight);
        assert(forall|i: int|
            0 <= i < insert_ordered(dl, x).len() ==> insert_ordered(dl, x)[i].weight
                <= s.last().weight);
    }
}

/// The stable sort indeed sorts: its result is weight-sorted.
pub proof fn lemma_sort_by_weight_sorted(s: Seq<QualityValueView>)
    ensures
        sorted_by_weight(sort_by_weight(s)),
    decreases s.len(),
{
    if s.len() > 0 {
        lemma_sort_by_weight_sorted(s.drop_last());
        lemma_insert_ordered_sorted(sort_by_weight(s.drop_last()), s.last());
    }
}

/// Sorting a list that is already weight-sorted leaves it unchanged: with
/// the stable tie-break, sorting is idempotent.
pub proof fn lemma_sort_by_weight_of_sorted(s: Seq<QualityValueView>)
    requires
        sorted_by_weight(s),
    ensures
        sort_by_weight(s) == s,
    decreases s.len(),
{
    if s.len() > 0 {
        let dl = s.drop_last();
        assert(forall|i: int, j: int| 0 <= i <= j < dl.len() ==> dl[i] == s[i] && dl[j] == s[j]);
        lemma_sort_by_weight_of_sorted(dl);
        if dl.len() == 0 {
            assert(insert_ordered(dl, s.last()) =~= s);
        } else {
            assert(dl.last().weight <= s.last().weight);
            assert(dl.push(s.last()) =~= s);
        }
    }
}

/// Every comma-separated piece is free of commas.
pub proof fn lemma_split_comma_free(s: Seq<char>)
    ensures
        forall|k: int| 0 <= k < split_commas(s).len() ==> no_char(#[trigger] split_commas(s)[k], ','),
    decreases s.len(),
{
    let i = find_first(s, ',');
    lemma_find_first_bounds(s, ',');
    if 0 <= i < s.len() {
        let rest = s.subrange(i + 1, s.len() as int);
        lemma_split_comma_free(rest);
        assert(no_char(s.subrange(0, i), ','));
        assert forall|k: int| 0 <= k < split_commas(s).len() implies no_char(
            #[trigger] split_commas(s)[k],
            ',',
        ) by {
            if k == 0 {
                assert(split_commas(s)[k] == s.subrange(0, i));
            } else {
                assert(split_commas(s)[k] == split_commas(rest)[k - 1]);
            }
        }
    } else {
        assert(no_char(s, ','));
    }
}

/// Whatever `parse_item` accepts from comma-free text is well-formed.
pub proof fn lemma_parse_item_wf(raw: Seq<char>)
    requires
        no_char(raw, ','),
    ensures
        match parse_item(raw) {
            Ok(q) => item_wf(q),
            Err(_) => true,
        },
{
    let i = find_first(raw, ';');
    lemma_find_first_bounds(raw, ';');
    if i >= raw.len() {
        let token = trim(raw);
        let ab = lemma_trim_shape(raw);
        if token.len() > 0 {
            lemma_parse_coding_name(token);
            assert(forall|j: int| 0 <= j < token.len() ==> token[j] == raw[ab.0 + j]);
            assert(no_char(token, ','));
            assert(no_char(token, ';'));
        }
    } else {
        let left = raw.subrange(0, i);
        let token = trim(left);
        let ab = lemma_trim_shape(left);
        if token.len() > 0 {
            lemma_parse_coding_name(token);
            assert(forall|j: int| 0 <= j < left.len() ==> left[j] == raw[j] && left[j] != ';');
            assert(forall|j: int| 0 <= j < token.len() ==> token[j] == left[ab.0 + j]);
            assert(no_char(token, ','));
            assert(no_char(token, ';'));
            lemma_parse_weight_ok_range(trim(raw.subrange(i + 1, raw.len() as int)));
        }
    }
}

/// Every entry parsed out of comma-free pieces is well-formed.
pub proof fn lemma_parse_all_wf(items: Seq<Seq<char>>)
    requires
        forall|k: int| 0 <= k < items.len() ==> no_char(#[trigger] items[k], ','),
    ensures
        forall|k: int| 0 <= k < parse_all(items).len() ==> item_wf(#[trigger] parse_all(items)[k]),
    decreases items.len(),
{
    if items.len() > 0 {
        assert(forall|k: int| 0 <= k < items.len() - 1 ==> items.drop_last()[k] == items[k]);
        lemma_parse_all_wf(items.drop_last());
        lemma_parse_item_wf(items.last());
        let pre = parse_all(items.drop_last());
        assert forall|k: int| 0 <= k < parse_all(items).len() implies item_wf(
            #[trigger] parse_all(items)[k],
        ) by {
            if k < pre.len() {
                assert(parse_all(items)[k] == pre[k]);
            } else {
                match parse_item(items.last()) {
                    Ok(q) => {
                        assert(parse_all(items)[k] == q);
                    },
                    Err(_) => {},
                }
            }
        }
    }
}

/// Insertion keeps well-formedness of every element.
pub proof fn lemma_insert_ordered_wf(s: Seq<QualityValueView>, x: QualityValueView)
    requires
        forall|k: int| 0 <= k < s.len() ==> item_wf(#[trigger] s[k]),
        item_wf(x),
    ensures
        forall|k: int|
            0 <= k < insert_ordered(s, x).len() ==> item_wf(#[trigger] insert_ordered(s, x)[k]),
    decreases s.len(),
{
    if s.len() == 0 {
        assert(insert_ordered(s, x) =~= seq![x]);
    } else if s.last().weight <= x.weight {
        assert(insert_ordered(s, x) =~= s.push(x));
    } else {
        assert(forall|k: int| 0 <= k < s.len() - 1 ==> s.drop_last()[k] == s[k]);
        lemma_insert_ordered_wf(s.drop_last(), x);
        assert(insert_ordered(s, x) =~= insert_ordered(s.drop_last(), x).push(s.last()));
    }
}

/// Sorting keeps well-formedness of every element.
pub proof fn lemma_sort_by_weight_wf(s: Seq<QualityValueView>)
    requires
        forall|k: int| 0 <= k < s.len() ==> item_wf(#[trigger] s[k]),
    ensures
        forall|k: int| 0 <= k < sort_by_weight(s).len() ==> item_wf(#[trigger] sort_by_weight(s)[k]),
    decreases s.len(),
{
    if s.len() > 0 {
        assert(forall|k: int| 0 <= k < s.len() - 1 ==> s.drop_last()[k] == s[k]);
        lemma_sort_by_weight_wf(s.drop_last());
        lemma_insert_ordered_wf(sort_by_weight(s.drop_last()), s.last());
    }
}

/// Parsing distributes over concatenation of piece lists.
pub proof fn lemma_parse_all_append(a: Seq<Seq<char>>, b: Seq<Seq<char>>)
    ensures
        parse_all(a + b) == parse_all(a) + parse_all(b),
    decreases b.len(),
{
    if b.len() == 0 {
        assert(a + b =~= a);
        assert(parse_all(a) + parse_all(b) =~= parse_all(a));
    } else {
        assert((a + b).drop_last() =~= a + b.drop_last());
        assert((a + b).last() == b.last());
        lemma_parse_all_append(a, b.drop_last());
        assert(parse_all(a + b) =~= parse_all(a) + parse_all(b));
    }
}

/// Splitting distributes over a comma that joins two texts.
pub proof fn lemma_split_append(a: Seq<char>, v: Seq<char>)
    ensures
        split_commas(a + seq![','] + v) == split_commas(a) + split_commas(v),
    decreases a.len(),
{
    let i = find_first(a, ',');
    lemma_find_first_bounds(a, ',');
    if 0 <= i < a.len() {
        let a1 = a.subrange(0, i);
        let a2 = a.subrange(i + 1, a.len() as int);
        assert(a + seq![','] + v =~= a1 + seq![','] + (a2 + seq![','] + v));
        lemma_split_concat(a1, a2 + seq![','] + v);
        lemma_split_append(a2, v);
        assert(a =~= a1 + seq![','] + a2);
        lemma_split_concat(a1, a2);
        assert(seq![a1] + (split_commas(a2) + split_commas(v)) =~= (seq![a1] + split_commas(a2))
            + split_commas(v));
    } else {
        lemma_split_no_comma(a);
        lemma_split_concat(a, v);
    }
}

/// Encoding well-formed entries and decoding the result yields exactly
/// those entries, in the same order.
pub proof fn lemma_join_round_trip(s: Seq<QualityValueView>)
    requires
        forall|k: int| 0 <= k < s.len() ==> item_wf(#[trigger] s[k]),
    ensures
        parse_all(split_commas(join_items(s))) == s,
    decreases s.len(),
{
    if s.len() == 0 {
        let e = Seq::<char>::empty();
        assert(find_first(e, ',') == 0);
        let pieces = split_commas(e);
        assert(pieces =~= seq![e]);
        assert(find_first(e, ';') == 0);
        assert(trim(e).len() == 0);
        assert(parse_item(e) == Err::<QualityValueView, crate::quality::ParseError>(
            crate::quality::ParseError::EmptyToken,
        ));
        assert(pieces.drop_last() =~= Seq::<Seq<char>>::empty());
        assert(parse_all(Seq::<Seq<char>>::empty()) == Seq::<QualityValueView>::empty());
        assert(pieces.last() == e);
        assert(parse_all(pieces) =~= Seq::<QualityValueView>::empty());
        assert(parse_all(pieces) =~= s);
    } else if s.len() == 1 {
        lemma_format_item_shape(s[0]);
        let f = format_item(s[0]);
        lemma_split_no_comma(f);
        lemma_parse_format_item(Seq::<char>::empty(), s[0]);
        assert(Seq::<char>::empty() + f =~= f);
        let pieces = seq![f];
        assert(split_commas(join_items(s)) == pieces);
        assert(pieces.drop_last() =~= Seq::<Seq<char>>::empty());
        assert(parse_all(Seq::<Seq<char>>::empty()) == Seq::<QualityValueView>::empty());
        assert(pieces.last() == f);
        assert(parse_item(f) == Ok::<QualityValueView, crate::quality::ParseError>(s[0]));
        assert(parse_all(pieces) =~= seq![s[0]]);
        assert(seq![s[0]] =~= s);
    } else {
        let dl = s.drop_last();
        assert(forall|k: int| 0 <= k < dl.len() ==> dl[k] == s[k]);
        lemma_join_round_trip(dl);
        lemma_format_item_shape(s.last());
        reveal_strlit(", ");
        assert(", "@ =~= seq![',', ' ']);
        let f = format_item(s.last());
        let tailpiece = seq![' '] + f;
        assert(join_items(s) =~= join_items(dl) + seq![','] + tailpiece);
        lemma_split_append(join_items(dl), tailpiece);
        assert(no_char(tailpiece, ','));
        lemma_split_no_comma(tailpiece);
        lemma_parse_all_append(split_commas(join_items(dl)), seq![tailpiece]);
        assert(seq![tailpiece].drop_last() =~= Seq::<Seq<char>>::empty());
        assert(is_ows(' '));
        lemma_parse_format_item(seq![' '], s.last());
        assert(parse_item(tailpiece) == Ok::<QualityValueView, crate::quality::ParseError>(
            s.last(),
        ));
        assert(parse_all(Seq::<Seq<char>>::empty()) == Seq::<QualityValueView>::empty());
        assert(seq![tailpiece].last() == tailpiece);
        assert(parse_all(seq![tailpiece]) =~= seq![s.last()]);
        assert(parse_all(split_commas(join_items(s))) =~= dl + seq![s.last()]);
        assert(dl + seq![s.last()] =~= s);
    }
}

/// Idempotence of the decode-encode cycle: re-encoding the
/// priority-ordered entries of any field and decoding the result yields
/// the same ordered entries again.
pub proof fn lemma_encode_round_trip(text: Seq<char>)
    ensures
        items_in_priority(join_items(items_in_priority(text))) == items_in_priority(text),
{
    lemma_split_comma_free(text);
    lemma_parse_all_wf(split_commas(text));
    lemma_sort_by_weight_wf(parsed_list(text));
    lemma_sort_by_weight_sorted(parsed_list(text));
    let items = items_in_priority(text);
    lemma_join_round_trip(items);
    lemma_sort_by_weight_of_sorted(items);
}

} // verus!
