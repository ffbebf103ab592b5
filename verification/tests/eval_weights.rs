use lattice::eval::weights;

#[test]
fn tables_are_distinct() {
    let w = weights();
    let tables: Vec<&[i32; 64]> = w.mg_table.iter().chain(w.eg_table.iter()).collect();
    for (i, first) in tables.iter().enumerate() {
        for (j, second) in tables.iter().enumerate().skip(i + 1) {
            assert_ne!(first, second, "tables {i} and {j} are identical");
        }
    }
}
