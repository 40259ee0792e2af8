use vstd::prelude::*;

use crate::csvtext::{lemma_csv_round_trip, parse_records};
use crate::error::StoreError;
use crate::order::{lemma_lex_lt_irrefl, lex_lt, sorted_lt};
use crate::record::AliasDisplay;
use crate::store::{
    display_fields, display_matches_row, display_records, export_text, header_fields, header_ok,
    import_fold, lemma_header_unique, listing_matches, record_entry, Header, RowV,
};
use crate::timefmt::{rfc3339_of, rfc3339_val, ts_valid};

verus! {

/// A record that was just added is listed exactly once, with exactly
/// its display fields: after `add` put `(k, v)` into the store, every
/// listing holds one entry named `k`, no second one, and that entry
/// shows `v`.
pub proof fn lemma_add_then_list(
    m: Map<Seq<char>, RowV>,
    k: Seq<char>,
    v: RowV,
    s: Seq<AliasDisplay>,
)
    requires
        listing_matches(m.insert(k, v), s),
    ensures
        exists|i: int| 0 <= i < s.len() && #[trigger] s[i].alias@ == k,
        forall|i: int, j: int|
            0 <= i < s.len() && 0 <= j < s.len() && #[trigger] s[i].alias@ == k
                && #[trigger] s[j].alias@ == k ==> i == j,
        forall|i: int|
            0 <= i < s.len() && #[trigger] s[i].alias@ == k ==> display_matches_row(s[i], k, v),
{
    assert(m.insert(k, v).contains_key(k));
    assert forall|i: int, j: int|
        0 <= i < s.len() && 0 <= j < s.len() && #[trigger] s[i].alias@ == k
            && #[trigger] s[j].alias@ == k implies i == j by {
        if i < j {
            assert(lex_lt(s[i].alias@, s[j].alias@));
            lemma_lex_lt_irrefl(k);
        } else if j < i {
            assert(lex_lt(s[j].alias@, s[i].alias@));
            lemma_lex_lt_irrefl(k);
        }
    }
    assert forall|i: int|
        0 <= i < s.len() && #[trigger] s[i].alias@ == k implies display_matches_row(
        s[i],
        k,
        v,
    ) by {
        assert(m.insert(k, v)[k] == v);
    }
}

/// Adding is not idempotent: once a record with key `k` is stored the
/// store holds exactly that one row for `k`, and a second `add` of the
/// same key is refused — `add`'s contract returns `DuplicateKey` and
/// leaves the store unchanged wherever the backing store itself does
/// not fail. Even a forced second insert of the same key would add no
/// second row.
pub proof fn lemma_add_twice(m: Map<Seq<char>, RowV>, k: Seq<char>, v: RowV, v2: RowV)
    requires
        !m.contains_key(k),
    ensures
        m.insert(k, v).contains_key(k),
        m.insert(k, v)[k] == v,
        m.insert(k, v).insert(k, v2) == m.insert(k, v2),
{
    assert(m.insert(k, v).insert(k, v2) =~= m.insert(k, v2));
}

/// Removal is idempotent: removing a key twice leaves exactly the store
/// that removing it once leaves, and no row for the key remains. With
/// `remove`'s contract, a second `remove` of the same key succeeds and
/// changes nothing.
pub proof fn lemma_remove_idempotent(m: Map<Seq<char>, RowV>, k: Seq<char>)
    ensures
        m.remove(k).remove(k) == m.remove(k),
        !m.remove(k).contains_key(k),
{
    assert(m.remove(k).remove(k) =~= m.remove(k));
}

/// The listing order does not depend on the order the records went in:
/// every listing of a store — however its rows got there — is strictly
/// ascending by alias name.
pub proof fn lemma_listing_sorted(m: Map<Seq<char>, RowV>, s: Seq<AliasDisplay>)
    requires
        listing_matches(m, s),
    ensures
        sorted_lt(s),
        forall|i: int, j: int| 0 <= i < j < s.len() ==> lex_lt(s[i].alias@, s[j].alias@),
{
}


/// The column layout of the export's own header row: name, command,
/// description and update timestamp, in that order, with no creation
/// column.
pub open spec fn export_header() -> Header {
    Header { alias_i: 0, command_i: 1, description_i: 2, created_i: None, updated_i: 3, width: 4 }
}

/// The export's header row fits exactly one layout: its own.
proof fn lemma_export_header_ok()
    ensures
        header_ok(header_fields(), export_header()),
        forall|h: Header| header_ok(header_fields(), h) ==> h == export_header(),
{
    reveal_strlit("alias");
    reveal_strlit("command");
    reveal_strlit("description");
    reveal_strlit("date_created");
    reveal_strlit("date_updated");
    let hf = header_fields();
    assert(hf.len() == 4);
    assert(hf[0] == "alias"@);
    assert(hf[1] == "command"@);
    assert(hf[2] == "description"@);
    assert(hf[3] == "date_updated"@);
    assert("alias"@.len() == 5);
    assert("command"@.len() == 7);
    assert("description"@.len() == 11);
    assert("date_created"@.len() == 12);
    assert("date_updated"@.len() == 12);
    assert("date_created"@[5] != "date_updated"@[5]);
    assert(header_ok(hf, export_header()));
    assert forall|h: Header| header_ok(hf, h) implies h == export_header() by {
        lemma_header_unique(hf, export_header(), h);
    }
}

/// Importing the display records of pairwise distinct, valid entries
/// into a store that holds none of their names adds exactly those
/// entries and nothing else, and succeeds.
proof fn lemma_fold_of_displays(m: Map<Seq<char>, RowV>, s: Seq<AliasDisplay>)
    requires
        forall|i: int, j: int| 0 <= i < j < s.len() ==> s[i].alias@ != s[j].alias@,
        forall|i: int| 0 <= i < s.len() ==> !m.contains_key(#[trigger] s[i].alias@),
        forall|i: int| 0 <= i < s.len() ==> ts_valid(#[trigger] s[i].date_updated),
        forall|i: int|
            0 <= i < s.len() ==> rfc3339_val(rfc3339_of(#[trigger] s[i].date_updated)) == Some(
                s[i].date_updated,
            ),
    ensures
        import_fold(m, export_header(), display_records(s)).1 == Ok::<(), StoreError>(()),
        forall|k: Seq<char>|
            #[trigger] import_fold(m, export_header(), display_records(s)).0.contains_key(k) == (
            m.contains_key(k) || exists|i: int| 0 <= i < s.len() && s[i].alias@ == k),
        forall|i: int|
            0 <= i < s.len() ==> import_fold(m, export_header(), display_records(s)).0[
                #[trigger] s[i].alias@
            ] == (
                s[i].command@,
                s[i].description@,
                rfc3339_of(s[i].date_updated),
                rfc3339_of(s[i].date_updated),
            ),
        forall|k: Seq<char>|
            m.contains_key(k) ==> import_fold(m, export_header(), display_records(s)).0[k] == m[k],
    decreases s.len(),
{
    let recs = display_records(s);
    let fold = import_fold(m, export_header(), recs);
    if s.len() == 0 {
        assert(recs.len() == 0);
        assert(fold == (m, Ok::<(), StoreError>(())));
        assert forall|k: Seq<char>| #[trigger] fold.0.contains_key(k) == (m.contains_key(k)
            || exists|i: int| 0 <= i < s.len() && s[i].alias@ == k) by {
            assert(!(exists|i: int| 0 <= i < s.len() && s[i].alias@ == k));
        }
    } else {
        let d0 = s[0];
        let rec0 = recs[0];
        assert(rec0 == display_fields(d0));
        assert(rec0.len() == 4);
        assert(rec0[0] == d0.alias@);
        assert(rec0[1] == d0.command@);
        assert(rec0[2] == d0.description@);
        assert(rec0[3] == rfc3339_of(d0.date_updated));
        assert(rfc3339_val(rec0[3]) == Some(d0.date_updated));
        let entry = (
            d0.alias@,
            (d0.command@, d0.description@, rfc3339_of(d0.date_updated), rfc3339_of(
                d0.date_updated,
            )),
        );
        assert(record_entry(export_header(), rec0) == Some(entry));
        assert(!m.contains_key(d0.alias@));
        let m1 = m.insert(entry.0, entry.1);
        let s1 = s.drop_first();
        assert(recs.drop_first() =~= display_records(s1));
        assert forall|i: int| 0 <= i < s1.len() implies !m1.contains_key(
            #[trigger] s1[i].alias@,
        ) by {
            assert(s1[i] == s[i + 1]);
            assert(s[0].alias@ != s[i + 1].alias@);
        }
        assert(forall|i: int| 0 <= i < s1.len() ==> #[trigger] s1[i] == s[i + 1]);
        lemma_fold_of_displays(m1, s1);
        assert(fold == import_fold(m1, export_header(), display_records(s1)));
        assert forall|k: Seq<char>| #[trigger] fold.0.contains_key(k) == (m.contains_key(k)
            || exists|i: int| 0 <= i < s.len() && s[i].alias@ == k) by {
            if fold.0.contains_key(k) {
                if m1.contains_key(k) && !m.contains_key(k) && k != d0.alias@ {
                    assert(false);
                }
                if !m1.contains_key(k) {
                    let i = choose|i: int| 0 <= i < s1.len() && s1[i].alias@ == k;
                    assert(s[i + 1].alias@ == k);
                }
                if k == d0.alias@ {
                    assert(s[0].alias@ == k);
                }
            }
            if m.contains_key(k) {
                assert(m1.contains_key(k));
                assert(fold.0.contains_key(k));
            }
            if exists|i: int| 0 <= i < s.len() && s[i].alias@ == k {
                let i = choose|i: int| 0 <= i < s.len() && s[i].alias@ == k;
                if i == 0 {
                    assert(m1.contains_key(k));
                    assert(fold.0.contains_key(k));
                } else {
                    assert(s1[i - 1].alias@ == k);
                    assert(fold.0.contains_key(k));
                }
            }
        }
        assert forall|i: int| 0 <= i < s.len() implies fold.0[#[trigger] s[i].alias@] == (
            s[i].command@,
            s[i].description@,
            rfc3339_of(s[i].date_updated),
            rfc3339_of(s[i].date_updated),
        ) by {
            if i == 0 {
                assert(m1.contains_key(d0.alias@));
                assert(fold.0[d0.alias@] == m1[d0.alias@]);
            } else {
                assert(s1[i - 1] == s[i]);
                assert(fold.0[s1[i - 1].alias@] == (
                    s1[i - 1].command@,
                    s1[i - 1].description@,
                    rfc3339_of(s1[i - 1].date_updated),
                    rfc3339_of(s1[i - 1].date_updated),
                ));
            }
        }
        assert forall|k: Seq<char>| m.contains_key(k) implies fold.0[k] == m[k] by {
            assert(m1.contains_key(k));
            assert(fold.0[k] == m1[k]);
            assert(k != d0.alias@);
        }
    }
}

/// Round trip: the export text of a listing, read back and imported
/// into an empty store, is accepted whole and fills the store so that
/// its listing shows exactly the same entries again. The timestamp
/// hypotheses are what the export itself guarantees of every listing
/// it writes.
pub proof fn lemma_export_import_round_trip(s: Seq<AliasDisplay>)
    requires
        sorted_lt(s),
        forall|i: int| 0 <= i < s.len() ==> ts_valid(#[trigger] s[i].date_updated),
        forall|i: int|
            0 <= i < s.len() ==> rfc3339_val(rfc3339_of(#[trigger] s[i].date_updated)) == Some(
                s[i].date_updated,
            ),
    ensures
        parse_records(export_text(s), 0) == Some(seq![header_fields()] + display_records(s)),
        header_ok(header_fields(), export_header()),
        forall|h: Header|
            header_ok(header_fields(), h) ==> import_fold(
                Map::empty(),
                h,
                display_records(s),
            ).1 == Ok::<(), StoreError>(()) && listing_matches(
                import_fold(Map::empty(), h, display_records(s)).0,
                s,
            ),
{
    let recs = seq![header_fields()] + display_records(s);
    assert(display_records(s).len() == s.len());
    assert forall|x: int| 0 <= x < recs.len() implies #[trigger] recs[x].len() >= 1 by {
        if x == 0 {
            assert(recs[0] == header_fields());
        } else {
            assert(recs[x] == display_records(s)[x - 1]);
            assert(display_records(s)[x - 1] == display_fields(s[x - 1]));
        }
    }
    lemma_csv_round_trip(recs);
    lemma_export_header_ok();
    assert forall|i: int, j: int| 0 <= i < j < s.len() implies s[i].alias@ != s[j].alias@ by {
        assert(lex_lt(s[i].alias@, s[j].alias@));
        if s[i].alias@ == s[j].alias@ {
            lemma_lex_lt_irrefl(s[i].alias@);
        }
    }
    lemma_fold_of_displays(Map::empty(), s);
    let fold = import_fold(Map::empty(), export_header(), display_records(s));
    assert(listing_matches(fold.0, s)) by {
        assert forall|i: int| 0 <= i < s.len() implies fold.0.contains_key(#[trigger] s[i].alias@)
            && display_matches_row(s[i], s[i].alias@, fold.0[s[i].alias@]) by {
            assert(fold.0.contains_key(s[i].alias@));
            assert(rfc3339_val(rfc3339_of(s[i].date_updated)) == Some(s[i].date_updated));
        }
        assert forall|k: Seq<char>| fold.0.contains_key(k) implies exists|i: int|
            0 <= i < s.len() && #[trigger] s[i].alias@ == k by {
            assert(!Map::<Seq<char>, RowV>::empty().contains_key(k));
        }
    }
    assert forall|h: Header| header_ok(header_fields(), h) implies import_fold(
        Map::empty(),
        h,
        display_records(s),
    ).1 == Ok::<(), StoreError>(()) && listing_matches(
        import_fold(Map::empty(), h, display_records(s)).0,
        s,
    ) by {
        assert(h == export_header());
    }
}
} // verus!
