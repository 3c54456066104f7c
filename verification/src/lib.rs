//! A Monte Carlo Tree Search engine for finite Markov decision
//! processes: an arena-backed search tree with visit and score
//! statistics, the select / expand / simulate / backpropagate loop, a
//! UCB1 tree policy, and the strategies that turn root statistics into
//! one chosen action.

pub mod action;
pub mod bandit;
pub mod fixed;
pub mod mcts;
pub mod mdp;
pub mod node;
pub mod policy;
pub mod rand;
pub mod strategy;
pub mod ucb1;
