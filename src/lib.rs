//! A circular-arena ball simulation: fixed-point vectors, balls with their
//! integration rule, a quadtree broad phase and an iterative pairwise solver.
pub mod fixed;
pub mod vec2;
pub mod ball;
pub mod quadtree;
pub mod physics;
pub mod mesh;
