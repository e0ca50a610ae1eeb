use chain_orb::board::create_empty_board;
use chain_orb::board::Cell;
use chain_orb::codec::board_from_json;
use chain_orb::codec::board_to_json;
use chain_orb::codec::color_name;

#[test]
fn color_names_follow_the_palette() {
    let names: Vec<&str> = (0u8..8).map(color_name).collect();
    assert_eq!(
        names,
        vec!["red", "blue", "green", "yellow", "purple", "orange", "pink", "cyan"]
    );
}

#[test]
fn empty_cell_serializes_to_null_owner() {
    let b = create_empty_board(1, 1);
    assert_eq!(board_to_json(&b), "[[{\"orbs\":0,\"owner\":null}]]");
}

#[test]
fn owned_cells_serialize_with_color_names() {
    let mut b = create_empty_board(2, 2);
    b.set(0, 0, Cell { orbs: 2, owner: Some(0) });
    b.set(1, 1, Cell { orbs: 13, owner: Some(7) });
    assert_eq!(
        board_to_json(&b),
        "[[{\"orbs\":2,\"owner\":\"red\"},{\"orbs\":0,\"owner\":null}],\
         [{\"orbs\":0,\"owner\":null},{\"orbs\":13,\"owner\":\"cyan\"}]]"
    );
}

#[test]
fn serialized_board_is_valid_compact_json() {
    let mut b = create_empty_board(3, 2);
    b.set(0, 1, Cell { orbs: 3, owner: Some(1) });
    b.set(2, 0, Cell { orbs: 1, owner: Some(4) });
    let js = board_to_json(&b);
    let v: serde_json::Value = serde_json::from_str(&js).expect("well-formed JSON");
    assert_eq!(serde_json::to_string(&v).expect("serializable"), js);
    assert_eq!(v[0][1]["orbs"], serde_json::Value::from(3u32));
    assert_eq!(v[0][1]["owner"], serde_json::Value::from("blue"));
    assert_eq!(v[0][0]["owner"], serde_json::Value::Null);
}

#[test]
fn boards_round_trip_through_json() {
    let mut b = create_empty_board(9, 6);
    b.set(0, 0, Cell { orbs: 1, owner: Some(0) });
    b.set(4, 3, Cell { orbs: 3, owner: Some(5) });
    b.set(8, 5, Cell { orbs: 2, owner: Some(1) });
    let js = board_to_json(&b);
    let back = board_from_json(&js).expect("canonical form parses");
    assert_eq!(back.rows, b.rows);
    assert_eq!(back.cols, b.cols);
    for (c1, c2) in b.cells.iter().zip(back.cells.iter()) {
        assert_eq!(c1.orbs, c2.orbs);
        assert_eq!(c1.owner, c2.owner);
    }
}

#[test]
fn parse_rejects_malformed_text() {
    assert!(board_from_json("").is_none());
    assert!(board_from_json("[]").is_none());
    assert!(board_from_json("nonsense").is_none());
    assert!(board_from_json("[[{\"orbs\":1,\"owner\":null}]]").is_none());
    assert!(board_from_json("[[{\"orbs\":0,\"owner\":\"red\"}]]").is_none());
    assert!(board_from_json("[[{\"orbs\":1,\"owner\":\"mauve\"}]]").is_none());
    // ragged rows are rejected
    assert!(board_from_json(
        "[[{\"orbs\":0,\"owner\":null}],[{\"orbs\":0,\"owner\":null},{\"orbs\":0,\"owner\":null}]]"
    )
    .is_none());
    // whitespace is not part of the durable form
    assert!(board_from_json("[[ {\"orbs\":0,\"owner\":null} ]]").is_none());
}

#[test]
fn parse_accepts_exact_canonical_text() {
    let js = "[[{\"orbs\":1,\"owner\":\"green\"},{\"orbs\":0,\"owner\":null}]]";
    let b = board_from_json(js).expect("canonical form parses");
    assert_eq!(b.rows, 1);
    assert_eq!(b.cols, 2);
    assert_eq!(b.cells[0].orbs, 1);
    assert_eq!(b.cells[0].owner, Some(2));
    assert_eq!(b.cells[1].orbs, 0);
    assert_eq!(b.cells[1].owner, None);
}
