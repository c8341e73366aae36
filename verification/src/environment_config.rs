//! The settings of an environment.

use vstd::prelude::*;

verus! {

/// Settings that only the training loop around the environment reads.
#[derive(Debug, Clone, Copy, PartialEq, Eq)]
pub struct PythonConfig {
    pub allowed_revisits: usize,
    pub use_sparse_rewards: bool,
    pub mini_explore_runs_per_episode: usize,
    pub mini_exploit_runs_per_episode: usize,
    pub exploration_steps: usize,
}

impl Default for PythonConfig {
    fn default() -> (r: PythonConfig)
        ensures
            r == (PythonConfig {
                allowed_revisits: 0,
                use_sparse_rewards: false,
                mini_explore_runs_per_episode: 0,
                mini_exploit_runs_per_episode: 0,
                exploration_steps: 0,
            }),
    {
        PythonConfig {
            allowed_revisits: 0,
            use_sparse_rewards: false,
            mini_explore_runs_per_episode: 0,
            mini_exploit_runs_per_episode: 0,
            exploration_steps: 0,
        }
    }
}

/// The size of the maze of an environment, and the settings of the training loop.
#[derive(Debug, Clone, Copy, PartialEq, Eq)]
pub struct EnvConfig {
    pub maze_width: usize,
    pub maze_height: usize,
    pub python_config: PythonConfig,
}

impl EnvConfig {
    pub fn new(maze_width: usize, maze_height: usize, python_config: PythonConfig) -> (r: EnvConfig)
        ensures
            r == (EnvConfig { maze_width, maze_height, python_config }),
    {
        EnvConfig { maze_width, maze_height, python_config }
    }

    /// A configuration with the training settings left at their defaults.
    pub fn new_rust_config(maze_width: usize, maze_height: usize) -> (r: EnvConfig)
        ensures
            r.maze_width == maze_width,
            r.maze_height == maze_height,
            r.python_config == (PythonConfig {
                allowed_revisits: 0,
                use_sparse_rewards: false,
                mini_explore_runs_per_episode: 0,
                mini_exploit_runs_per_episode: 0,
                exploration_steps: 0,
            }),
    {
        EnvConfig { maze_width, maze_height, python_config: PythonConfig::default() }
    }
}

} // verus!
