//! The layout that the contracts speak of, held against the grid on sampled integers.
use h3geo::compaction::{uncompact, validate_all};
use h3o::{CellIndex, LatLng, Resolution};

const PENTAGON_BASES: [u64; 12] = [4, 14, 24, 38, 49, 58, 63, 72, 83, 97, 107, 117];

fn resolution_field(cell: u64) -> u64 {
    (cell >> 52) & 0xf
}

fn digit(cell: u64, level: u64) -> u64 {
    (cell >> (45 - 3 * level)) & 7
}

fn tail_mask(res: u64) -> u64 {
    (1u64 << (45 - 3 * res)) - 1
}

fn has_layout_of_cell(cell: u64) -> bool {
    let res = resolution_field(cell);
    let base = (cell >> 45) & 0x7f;
    if cell >> 56 != 8 || base > 121 || cell & tail_mask(res) != tail_mask(res) {
        return false;
    }
    let mut zeros_so_far = true;
    for level in 1..=res {
        let d = digit(cell, level);
        if d == 7 {
            return false;
        }
        if PENTAGON_BASES.contains(&base) && zeros_so_far && d == 1 {
            return false;
        }
        zeros_so_far = zeros_so_far && d == 0;
    }
    true
}

fn ancestor(cell: u64, res: u64) -> u64 {
    (cell & !(0xfu64 << 52)) | (res << 52) | tail_mask(res)
}

fn assemble(base: u64, digits: &[u64]) -> u64 {
    let res = digits.len() as u64;
    let mut cell = (8u64 << 56) | (res << 52) | (base << 45) | tail_mask(res);
    for (i, d) in digits.iter().enumerate() {
        let at = 45 - 3 * (i as u64 + 1);
        cell = (cell & !(7u64 << at)) | (d << at);
    }
    cell
}

fn next_random(state: &mut u64) -> u64 {
    *state ^= *state << 13;
    *state ^= *state >> 7;
    *state ^= *state << 17;
    *state
}

fn random_cell(state: &mut u64) -> u64 {
    let lat = (next_random(state) % 18000) as f64 / 100.0 - 90.0;
    let lng = (next_random(state) % 36000) as f64 / 100.0 - 180.0;
    let res = Resolution::try_from((next_random(state) % 16) as u8).unwrap();
    u64::from(LatLng::new(lat, lng).unwrap().to_cell(res))
}

fn grid_accepts(value: u64) -> bool {
    validate_all(&vec![value])
}

#[test]
fn layout_agrees_on_arbitrary_integers() {
    let mut state = 0x9e3779b97f4a7c15u64;
    for _ in 0..20000 {
        let value = next_random(&mut state);
        assert_eq!(grid_accepts(value), has_layout_of_cell(value), "{value:#x}");
        let shaped = (value & 0x00ff_ffff_ffff_ffff) | (8u64 << 56);
        assert_eq!(grid_accepts(shaped), has_layout_of_cell(shaped), "{shaped:#x}");
    }
}

#[test]
fn layout_agrees_on_cells_and_their_neighbours_in_bits() {
    let mut state = 0x2545f4914f6cdd1du64;
    for _ in 0..2000 {
        let cell = random_cell(&mut state);
        assert!(has_layout_of_cell(cell), "{cell:#x}");
        assert!(grid_accepts(cell));
        for bit in 0..64 {
            let flipped = cell ^ (1u64 << bit);
            assert_eq!(grid_accepts(flipped), has_layout_of_cell(flipped), "{flipped:#x}");
        }
    }
}

#[test]
fn layout_agrees_on_every_digit_string_of_a_base_cell() {
    let bases = [0u64, 4, 14, 63, 117, 121, 122, 127];
    for base in bases {
        for res in 0..=3usize {
            let count = 8u64.pow(res as u32);
            for code in 0..count {
                let digits: Vec<u64> = (0..res).map(|i| (code >> (3 * i)) & 7).collect();
                let value = assemble(base, &digits);
                assert_eq!(grid_accepts(value), has_layout_of_cell(value), "{value:#x}");
            }
        }
    }
}

#[test]
fn layout_agrees_on_deep_pentagon_branches() {
    for base in PENTAGON_BASES {
        for level in 1..=15usize {
            for d in 0..8u64 {
                let mut digits = vec![0u64; 15];
                digits[level - 1] = d;
                let value = assemble(base, &digits);
                assert_eq!(grid_accepts(value), has_layout_of_cell(value), "{value:#x}");
                let mut after = digits.clone();
                after[0] = 2;
                let value = assemble(base, &after);
                assert_eq!(grid_accepts(value), has_layout_of_cell(value), "{value:#x}");
            }
        }
    }
}

#[test]
fn resolution_field_is_what_the_grid_reads() {
    let mut state = 0x1234_5678_9abc_def1u64;
    for _ in 0..2000 {
        let cell = random_cell(&mut state);
        let index = CellIndex::try_from(cell).unwrap();
        assert_eq!(u64::from(u8::from(index.resolution())), resolution_field(cell));
    }
}

#[test]
fn ancestor_is_what_the_grid_gives_as_parent() {
    let mut state = 0x0dd_ba11_5eed_cafeu64;
    for _ in 0..2000 {
        let cell = random_cell(&mut state);
        let index = CellIndex::try_from(cell).unwrap();
        for res in 0..=resolution_field(cell) {
            let parent = index.parent(Resolution::try_from(res as u8).unwrap()).unwrap();
            assert_eq!(u64::from(parent), ancestor(cell, res));
        }
        assert!(index.parent(Resolution::try_from(15).unwrap()).is_some() == (resolution_field(cell) == 15));
    }
}

fn descendants_by_layout(cell: u64, res: u64) -> Vec<u64> {
    let own = resolution_field(cell);
    let mut found = Vec::new();
    if own > res {
        return found;
    }
    let gap = res - own;
    for code in 0..8u64.pow(gap as u32) {
        let mut candidate = (cell & !(0xfu64 << 52)) | (res << 52);
        for i in 0..gap {
            let at = 45 - 3 * (own + 1 + i);
            candidate = (candidate & !(7u64 << at)) | (((code >> (3 * i)) & 7) << at);
        }
        if has_layout_of_cell(candidate) && ancestor(candidate, own) == cell {
            found.push(candidate);
        }
    }
    found.sort();
    found
}

#[test]
fn descendants_are_what_the_grid_lists() {
    let mut state = 0xfeed_f00d_dead_beefu64;
    let mut cells: Vec<u64> = (0..40).map(|_| random_cell(&mut state)).collect();
    for base in PENTAGON_BASES {
        cells.push(assemble(base, &[]));
        cells.push(assemble(base, &[0, 0]));
        cells.push(assemble(base, &[0, 3]));
    }
    for cell in cells {
        let own = resolution_field(cell);
        for res in 0..=(own + 3).min(15) {
            let mut listed = uncompact(vec![cell], res as u8).unwrap();
            let count = listed.len();
            listed.sort();
            listed.dedup();
            assert_eq!(listed.len(), count, "{cell:#x} lists a cell twice");
            assert_eq!(listed, descendants_by_layout(cell, res), "{cell:#x} at {res}");
        }
    }
}
