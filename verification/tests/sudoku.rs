// A sudoku-scale circuit: the 81 cells of a completed grid are public,
// their squares are private, and the constraints check each cell's square
// plus the sums and square-sums of every row, column and box.  The witness
// holder recovers a key; zeroing the private wires is refused.

use zkenc::cs::{ConstraintSystem, Var};
use zkenc::errors::Error;
use zkenc::field::{fe_from_u64, fe_one, Fe};
use zkenc::rng::FrRng;
use zkenc::wkem::{decap, encap};

const GRID: [[u64; 9]; 9] = [
    [5, 3, 4, 6, 7, 8, 9, 1, 2],
    [6, 7, 2, 1, 9, 5, 3, 4, 8],
    [1, 9, 8, 3, 4, 2, 5, 6, 7],
    [8, 5, 9, 7, 6, 1, 4, 2, 3],
    [4, 2, 6, 8, 5, 3, 7, 9, 1],
    [7, 1, 3, 9, 2, 4, 8, 5, 6],
    [9, 6, 1, 5, 3, 7, 2, 8, 4],
    [2, 8, 7, 4, 1, 9, 6, 3, 5],
    [3, 4, 5, 2, 8, 6, 1, 7, 9],
];

/// The nine cells of one unit (row, column or box), as flat indices.
fn units() -> Vec<Vec<usize>> {
    let mut out = Vec::new();
    for r in 0..9 {
        out.push((0..9).map(|c| r * 9 + c).collect());
    }
    for c in 0..9 {
        out.push((0..9).map(|r| r * 9 + c).collect());
    }
    for br in 0..3 {
        for bc in 0..3 {
            let mut cell = Vec::new();
            for r in 0..3 {
                for c in 0..3 {
                    cell.push((br * 3 + r) * 9 + (bc * 3 + c));
                }
            }
            out.push(cell);
        }
    }
    out
}

/// Builds the circuit: cells public, squares private (or zeroed when
/// `honest` is false), with cell-square, sum and square-sum constraints.
fn sudoku_circuit(with_witness: bool, honest: bool) -> ConstraintSystem {
    let mut cs = ConstraintSystem::new();
    let mut cells: Vec<Var> = Vec::new();
    for r in 0..9 {
        for c in 0..9 {
            cells.push(cs.new_instance(Some(fe_from_u64(GRID[r][c]))).unwrap());
        }
    }
    let mut squares: Vec<Var> = Vec::new();
    for r in 0..9 {
        for c in 0..9 {
            let value = if !with_witness {
                None
            } else if honest {
                Some(fe_from_u64(GRID[r][c] * GRID[r][c]))
            } else {
                Some(fe_from_u64(0))
            };
            squares.push(cs.new_witness(value).unwrap());
        }
    }
    // Each cell squared gives its private wire.
    for k in 0..81 {
        cs.enforce(
            vec![(cells[k], fe_one())],
            vec![(cells[k], fe_one())],
            vec![(squares[k], fe_one())],
        )
        .unwrap();
    }
    // Each unit sums to 45 and its squares sum to 285.
    for unit in units() {
        let sum_lc: Vec<(Var, Fe)> = unit.iter().map(|&k| (cells[k], fe_one())).collect();
        cs.enforce(
            sum_lc,
            vec![(Var::Instance(0), fe_one())],
            vec![(Var::Instance(0), fe_from_u64(45))],
        )
        .unwrap();
        let sq_lc: Vec<(Var, Fe)> = unit.iter().map(|&k| (squares[k], fe_one())).collect();
        cs.enforce(
            sq_lc,
            vec![(Var::Instance(0), fe_one())],
            vec![(Var::Instance(0), fe_from_u64(285))],
        )
        .unwrap();
    }
    cs
}

#[test]
fn sudoku_grid_encap_decap() {
    let cs_pub = sudoku_circuit(false, false);
    assert_eq!(cs_pub.rows.len(), 81 + 27 * 2);
    let mut rng = FrRng::from_seed_bytes(&vec![11u8; 32]);
    let (ct, _key) = encap(&cs_pub, &mut rng).unwrap();
    assert_eq!(ct.public_inputs.len(), 81);

    let cs_full = sudoku_circuit(true, true);
    assert_eq!(cs_full.is_satisfied().ok(), Some(true));
    assert!(decap(&cs_full, &ct).is_ok());
}

#[test]
fn sudoku_grid_zeroed_witness_is_refused() {
    let cs_pub = sudoku_circuit(false, false);
    let mut rng = FrRng::from_seed_bytes(&vec![12u8; 32]);
    let (ct, _key) = encap(&cs_pub, &mut rng).unwrap();

    let cs_zeroed = sudoku_circuit(true, false);
    assert_eq!(cs_zeroed.is_satisfied().ok(), Some(false));
    assert_eq!(decap(&cs_zeroed, &ct).err(), Some(Error::InvalidWitness));
}
