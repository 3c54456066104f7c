use mct_rs::mcts::MCTS;
use mct_rs::mdp::MDP;
use mct_rs::policy::RandomRollout;
use mct_rs::strategy::Strategy;

/// A full 3x3 board game with complete action enumeration. The
/// searching player owns the X marks; the opponent is folded into the
/// environment: after each X move the environment places an O on a
/// winning cell if one exists and on the first free cell otherwise.
/// States are (x marks, o marks) as bit masks over the nine cells;
/// actions are cell indices. Rewards: +1 when X completes a line, -1
/// when O does, 0 otherwise.
struct Board;

type TState = (u16, u16);

const LINES: [u16; 8] = [
    0b000000111,
    0b000111000,
    0b111000000,
    0b001001001,
    0b010010010,
    0b100100100,
    0b100010001,
    0b001010100,
];

const FULL: u16 = 0b111111111;

fn wins(m: u16) -> bool {
    LINES.iter().any(|l| m & l == *l)
}

fn step(s: &TState, a: &u8) -> TState {
    let (x, o) = *s;
    let x2 = x | (1u16 << *a);
    if wins(x2) || (x2 | o) == FULL {
        return (x2, o);
    }
    // The environment's reply: win if possible, else the first free
    // cell.
    for c in 0..9u8 {
        let bit = 1u16 << c;
        if (x2 | o) & bit == 0 && wins(o | bit) {
            return (x2, o | bit);
        }
    }
    for c in 0..9u8 {
        let bit = 1u16 << c;
        if (x2 | o) & bit == 0 {
            return (x2, o | bit);
        }
    }
    (x2, o)
}

impl MDP<TState, u8> for Board {
    fn get_states(&self) -> Vec<TState> {
        vec![self.get_initial_state()]
    }

    fn get_actions(&self, state: &TState) -> Vec<u8> {
        if self.is_terminal(state) {
            return vec![];
        }
        let (x, o) = *state;
        let mut acts = vec![];
        for c in 0..9u8 {
            if (x | o) & (1u16 << c) == 0 {
                acts.push(c);
            }
        }
        acts
    }

    fn get_transitions(&self, state: &TState, action: &u8) -> Vec<(TState, u64)> {
        vec![(step(state, action), 1000)]
    }

    fn get_reward(&self, _state: &TState, _action: &u8, next_state: &TState) -> i64 {
        if wins(next_state.0) {
            1
        } else if wins(next_state.1) {
            -1
        } else {
            0
        }
    }

    fn is_terminal(&self, state: &TState) -> bool {
        wins(state.0) || wins(state.1) || (state.0 | state.1) == FULL
    }

    fn get_discount_factor(&self) -> u64 {
        1000
    }

    fn get_initial_state(&self) -> TState {
        (0, 0)
    }

    fn get_goal_states(&self) -> Vec<TState> {
        vec![]
    }

    fn clone_state(&self, state: &TState) -> TState {
        *state
    }
}

#[test]
fn search_from_the_empty_board_proposes_a_legal_move() {
    let mut m = MCTS::new(Board, RandomRollout::new());
    m.mcts(100);
    let chosen = m.best_action(Strategy::MostVisited).expect("children exist");
    assert!(chosen < 9);
    // From the empty board every move is safe: none lets the opponent
    // complete a line on the very next reply.
    let after = step(&(0, 0), &chosen);
    assert!(!wins(after.1));
}

#[test]
fn search_blocks_an_immediate_opposing_win() {
    // X holds two corners, O holds cells 3 and 4 and threatens to
    // complete the middle row at cell 5. Every move but 5 hands the
    // opponent an immediate win; the search must find the block.
    let mdp = Board;
    let threat: TState = ((1 << 0) | (1 << 8), (1 << 3) | (1 << 4));
    assert!(!mdp.is_terminal(&threat));
    let mut m = MCTS::new(Board, RandomRollout::new());
    // Re-root the engine at the threat position.
    m.tree = mct_rs::node::Tree::new(threat);
    m.mcts(300);
    assert_eq!(m.best_action(Strategy::MostVisited), Some(5));
    assert_eq!(m.best_action(Strategy::HighestQValue), Some(5));
}
