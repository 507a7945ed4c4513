use llfree::mapping::Mapping;
use llfree::table::{Table, LEN};
use llfree::PAGE_SIZE;

#[test]
fn table_pt_size() {
    let mapping: Mapping<3> = Mapping([9, 9, 9]);

    assert_eq!(mapping.m_span(0), PAGE_SIZE);
    assert_eq!(mapping.m_span(1), PAGE_SIZE * 512);
    assert_eq!(mapping.m_span(2), PAGE_SIZE * 512 * 512);

    assert_eq!(mapping.span(0), 1);
    assert_eq!(mapping.span(1), 512);
    assert_eq!(mapping.span(2), 512 * 512);

    assert_eq!(mapping.num_pts(1, 0), 0);
    assert_eq!(mapping.num_pts(1, mapping.span(1)), 1);
    assert_eq!(mapping.num_pts(1, 2 * mapping.span(1) + 1), 3);
    assert_eq!(
        mapping.num_pts(1, mapping.span(3)),
        mapping.len(2) * mapping.len(3)
    );

    // the table of 512 entries
    assert_eq!(Table::m_span(0), PAGE_SIZE);
    assert_eq!(Table::m_span(1), PAGE_SIZE * LEN);
    assert_eq!(Table::m_span(2), PAGE_SIZE * LEN * LEN);

    assert_eq!(Table::span(0), 1);
    assert_eq!(Table::span(1), LEN);
    assert_eq!(Table::span(2), LEN * LEN);
}

#[test]
fn pt_size_verying() {
    let mapping: Mapping<3> = Mapping([9, 6, 5]);

    assert_eq!(mapping.m_span(0), PAGE_SIZE);
    assert_eq!(mapping.m_span(1), PAGE_SIZE * 512);
    assert_eq!(mapping.m_span(2), PAGE_SIZE * 512 * 64);

    assert_eq!(mapping.span(0), 1);
    assert_eq!(mapping.span(1), 512);
    assert_eq!(mapping.span(2), 512 * 64);
    assert_eq!(mapping.span(3), 512 * 64 * 32);

    assert_eq!(mapping.num_pts(1, 0), 0);
    assert_eq!(mapping.num_pts(1, mapping.span(1)), 1);
    assert_eq!(mapping.num_pts(1, 2 * mapping.span(1) + 1), 3);
    assert_eq!(
        mapping.num_pts(1, mapping.span(3)),
        mapping.len(2) * mapping.len(3)
    );
}

#[test]
fn rounding() {
    let mapping: Mapping<3> = Mapping([9, 9, 9]);

    assert_eq!(mapping.round(1, 15), 0);
    assert_eq!(mapping.round(1, 512), 512);
    assert_eq!(mapping.round(1, mapping.span(2)), mapping.span(2));
    assert_eq!(mapping.round(2, mapping.span(2)), mapping.span(2));
    assert_eq!(mapping.round(3, mapping.span(2)), 0);
    assert_eq!(mapping.round(3, 2 * mapping.span(3)), 2 * mapping.span(3));

    assert_eq!(mapping.page(1, 15, 2), 2);
    assert_eq!(mapping.page(1, 512, 2), 512 + 2);
    assert_eq!(mapping.page(1, mapping.span(2), 0), mapping.span(2));
    assert_eq!(
        mapping.page(2, mapping.span(2), 1),
        mapping.span(2) + mapping.span(1)
    );

    assert_eq!(mapping.idx(1, 3), 3);
    assert_eq!(mapping.idx(2, 3), 0);
    assert_eq!(mapping.idx(2, 3 * mapping.span(1)), 3);
    assert_eq!(mapping.idx(3, 3), 0);
    assert_eq!(mapping.idx(3, 3 * mapping.span(2)), 3);
}

#[test]
fn rounding_verying() {
    let mapping: Mapping<3> = Mapping([9, 6, 5]);

    assert_eq!(mapping.round(1, 15), 0);
    assert_eq!(mapping.round(1, 512), 512);
    assert_eq!(mapping.round(1, mapping.span(2)), mapping.span(2));
    assert_eq!(mapping.round(2, mapping.span(2)), mapping.span(2));
    assert_eq!(mapping.round(3, mapping.span(2)), 0);
    assert_eq!(mapping.round(3, 2 * mapping.span(3)), 2 * mapping.span(3));

    assert_eq!(mapping.page(1, 15, 2), 2);
    assert_eq!(mapping.page(1, 512, 2), 512 + 2);
    assert_eq!(mapping.page(1, mapping.span(2), 0), mapping.span(2));
    assert_eq!(
        mapping.page(2, mapping.span(2), 1),
        mapping.span(2) + mapping.span(1)
    );

    assert_eq!(mapping.idx(1, 3), 3);
    assert_eq!(mapping.idx(2, 3), 0);
    assert_eq!(mapping.idx(2, 3 * mapping.span(1)), 3);
    assert_eq!(mapping.idx(3, 3), 0);
    assert_eq!(mapping.idx(3, 3 * mapping.span(2)), 3);
}

#[test]
fn range() {
    let mapping: Mapping<3> = Mapping([9, 9, 9]);

    assert_eq!(mapping.range(1, 0..512), 0..512);
    assert_eq!(mapping.range(1, 0..0), 0..0);
    assert_eq!(mapping.range(1, 0..512 + 1), 0..512);
    assert_eq!(mapping.range(1, 512..512 - 1), 0..0);

    // L2
    assert_eq!(mapping.range(2, 0..mapping.span(1)), 0..1);
    assert_eq!(mapping.range(2, mapping.span(1)..3 * mapping.span(1)), 1..3);
    assert_eq!(mapping.range(2, 0..mapping.span(2)), 0..mapping.len(2));

    // L3
    assert_eq!(mapping.range(3, 0..mapping.span(2)), 0..1);
    assert_eq!(mapping.range(3, mapping.span(2)..3 * mapping.span(2)), 1..3);
    assert_eq!(mapping.range(3, 0..mapping.span(3)), 0..mapping.len(3));

    assert_eq!(mapping.range(3, 0..1), 0..1);
}

#[test]
fn range_verying() {
    let mapping: Mapping<3> = Mapping([9, 6, 5]);

    assert_eq!(mapping.range(1, 0..mapping.len(1)), 0..mapping.len(1));
    assert_eq!(mapping.range(1, 0..0), 0..0);
    assert_eq!(mapping.range(1, 0..mapping.len(1) + 1), 0..mapping.len(1));
    assert_eq!(mapping.range(1, mapping.len(1)..mapping.len(1) - 1), 0..0);

    // L2
    assert_eq!(mapping.range(2, 0..mapping.span(1)), 0..1);
    assert_eq!(mapping.range(2, mapping.span(1)..3 * mapping.span(1)), 1..3);
    assert_eq!(mapping.range(2, 0..mapping.span(2)), 0..mapping.len(2));

    // L3
    assert_eq!(mapping.range(3, 0..mapping.span(2)), 0..1);
    assert_eq!(mapping.range(3, mapping.span(2)..3 * mapping.span(2)), 1..3);
    assert_eq!(mapping.range(3, 0..mapping.span(3)), 0..mapping.len(3));

    assert_eq!(mapping.range(3, 0..1), 0..1);
}

#[test]
fn table_iterate() {
    let mapping: Mapping<3> = Mapping([9, 9, 9]);

    let mut iter = mapping.iterate(1, 0).into_iter().enumerate();
    assert_eq!(iter.next(), Some((0, 0)));
    assert_eq!(iter.last(), Some((511, 511)));

    // 5 -> 5, 6, .., 511, 0, 1, 2, 3, 4,
    let mut iter = mapping.iterate(1, 5).into_iter().enumerate();
    assert_eq!(iter.next(), Some((0, 5)));
    assert_eq!(iter.next(), Some((1, 6)));
    assert_eq!(iter.last(), Some((511, 4)));

    let mut iter = mapping.iterate(1, 5 + 2 * mapping.span(1)).into_iter().enumerate();
    assert_eq!(iter.next(), Some((0, 5 + 2 * mapping.span(1))));
    assert_eq!(iter.next(), Some((1, 6 + 2 * mapping.span(1))));
    assert_eq!(iter.last(), Some((511, 4 + 2 * mapping.span(1))));

    let mut iter = mapping.iterate(2, 5 * mapping.span(1)).into_iter().enumerate();
    assert_eq!(iter.next(), Some((0, 5 * mapping.span(1))));
    assert_eq!(iter.last(), Some((511, 4 * mapping.span(1))));

    let mut iter = mapping.iterate(2, 0).into_iter().enumerate();
    assert_eq!(iter.next(), Some((0, 0)));
    assert_eq!(iter.next(), Some((1, mapping.span(1))));
    assert_eq!(iter.last(), Some((511, 511 * mapping.span(1))));

    let mut iter = mapping.iterate(2, 500).into_iter().enumerate();
    assert_eq!(iter.next(), Some((0, 500)));
    assert_eq!(iter.next(), Some((1, mapping.span(1))));
    assert_eq!(iter.next(), Some((2, 2 * mapping.span(1))));
    assert_eq!(iter.last(), Some((511, 511 * mapping.span(1))));

    let mut iter = mapping.iterate(2, 499 * mapping.span(1)).into_iter().enumerate();
    assert_eq!(iter.next(), Some((0, 499 * mapping.span(1))));
    assert_eq!(iter.last(), Some((511, 498 * mapping.span(1))));

    // the table of 512 entries
    let mut iter = Table::iterate(1, 0).into_iter().enumerate();
    assert_eq!(iter.next(), Some((0, 0)));
    assert_eq!(iter.last(), Some((511, 511)));

    // 5 -> 5, 6, .., 511, 0, 1, 2, 3, 4,
    let mut iter = Table::iterate(1, 5).into_iter().enumerate();
    assert_eq!(iter.next(), Some((0, 5)));
    assert_eq!(iter.next(), Some((1, 6)));
    assert_eq!(iter.last(), Some((511, 4)));

    let mut iter = Table::iterate(1, 5 + 2 * Table::span(1)).into_iter().enumerate();
    assert_eq!(iter.next(), Some((0, 5 + 2 * Table::span(1))));
    assert_eq!(iter.next(), Some((1, 6 + 2 * Table::span(1))));
    assert_eq!(iter.last(), Some((511, 4 + 2 * Table::span(1))));

    let mut iter = Table::iterate(2, 5 * Table::span(1)).into_iter().enumerate();
    assert_eq!(iter.next(), Some((0, 5 * Table::span(1))));
    assert_eq!(iter.last(), Some((511, 4 * Table::span(1))));

    let mut iter = Table::iterate(2, 0).into_iter().enumerate();
    assert_eq!(iter.next(), Some((0, 0)));
    assert_eq!(iter.next(), Some((1, 1 * Table::span(1))));
    assert_eq!(iter.last(), Some((511, 511 * Table::span(1))));

    let mut iter = Table::iterate(2, 500).into_iter().enumerate();
    assert_eq!(iter.next(), Some((0, 500)));
    assert_eq!(iter.next(), Some((1, Table::span(1))));
    assert_eq!(iter.next(), Some((2, 2 * Table::span(1))));
    assert_eq!(iter.last(), Some((511, 511 * Table::span(1))));

    let mut iter = Table::iterate(2, 499 * Table::span(1)).into_iter().enumerate();
    assert_eq!(iter.next(), Some((0, 499 * Table::span(1))));
    assert_eq!(iter.last(), Some((511, 498 * Table::span(1))));
}

#[test]
fn iterate_varying() {
    let mapping: Mapping<3> = Mapping([9, 6, 5]);

    let mut iter = mapping.iterate(1, 0).into_iter().enumerate();
    assert_eq!(iter.next(), Some((0, 0)));
    assert_eq!(iter.last(), Some((511, 511)));

    // 5 -> 5, 6, .., 511, 0, 1, 2, 3, 4,
    let mut iter = mapping.iterate(1, 5).into_iter().enumerate();
    assert_eq!(iter.next(), Some((0, 5)));
    assert_eq!(iter.next(), Some((1, 6)));
    assert_eq!(iter.last(), Some((511, 4)));

    let mut iter = mapping.iterate(1, 5 + 2 * mapping.span(1)).into_iter().enumerate();
    assert_eq!(iter.next(), Some((0, 5 + 2 * mapping.span(1))));
    assert_eq!(iter.next(), Some((1, 6 + 2 * mapping.span(1))));
    assert_eq!(iter.last(), Some((511, 4 + 2 * mapping.span(1))));

    let mut iter = mapping.iterate(2, 5 * mapping.span(1)).into_iter().enumerate();
    assert_eq!(iter.next(), Some((0, 5 * mapping.span(1))));
    assert_eq!(iter.last(), Some((63, 4 * mapping.span(1))));

    let mut iter = mapping.iterate(3, 5 * mapping.span(2)).into_iter().enumerate();
    assert_eq!(iter.next(), Some((0, 5 * mapping.span(2))));
    assert_eq!(iter.last(), Some((31, 4 * mapping.span(2))));
}

#[test]
fn indexing() {
    assert_eq!(Table::range(1, 0..LEN), 0..LEN);
    assert_eq!(Table::range(1, 0..0), 0..0);
    assert_eq!(Table::range(1, 0..LEN + 1), 0..LEN);
    assert_eq!(Table::range(1, LEN..LEN - 1), 0..0);

    // L2
    assert_eq!(Table::range(2, 0..Table::span(1)), 0..1);
    assert_eq!(Table::range(2, Table::span(1)..3 * Table::span(1)), 1..3);
    assert_eq!(Table::range(2, 0..Table::span(2)), 0..LEN);

    // L3
    assert_eq!(Table::range(3, 0..Table::span(2)), 0..1);
    assert_eq!(Table::range(3, Table::span(2)..3 * Table::span(2)), 1..3);
    assert_eq!(Table::range(3, 0..Table::span(3)), 0..LEN);

    assert_eq!(Table::range(3, 0..1), 0..1);

    assert_eq!(Table::round(1, 15), 0);
    assert_eq!(Table::round(1, LEN), LEN);
    assert_eq!(Table::round(1, Table::span(2)), Table::span(2));
    assert_eq!(Table::round(2, Table::span(2)), Table::span(2));
    assert_eq!(Table::round(3, Table::span(2)), 0);
    assert_eq!(Table::round(3, 2 * Table::span(3)), 2 * Table::span(3));

    assert_eq!(Table::page(1, 15, 2), 2);
    assert_eq!(Table::page(1, LEN, 2), LEN + 2);
    assert_eq!(Table::page(1, Table::span(2), 0), Table::span(2));
    assert_eq!(
        Table::page(2, Table::span(2), 1),
        Table::span(2) + Table::span(1)
    );
}

#[test]
fn table_entries() {
    let mut table = Table::empty();
    assert_eq!(table.get(7), 0);
    table.set(7, 3);
    assert_eq!(table.cas(7, 3, 42), Ok(3));
    assert_eq!(table.cas(7, 3, 43), Err(42));
    assert_eq!(table.update(7, |v| Some(v + 1)), Ok(42));
    assert_eq!(table.update(7, |v| if v == 0 { Some(1) } else { None }), Err(43));
    assert_eq!(table.get(7), 43);
    table.fill(9);
    assert_eq!(table.get(0), 9);
    assert_eq!(table.get(511), 9);
    assert_eq!(Table::idx(1, 3), 3);
    assert_eq!(Table::idx(2, 3 * 512 + 5), 3);
    assert_eq!(Table::num_pts(1, 1025), 3);
}
