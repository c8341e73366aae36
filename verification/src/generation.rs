//! Environments made ready: a maze generated, braided, and an agent at its start.

use crate::coordinate_map::DirectionMap;
use crate::direction::{Coordinate, Direction};
use crate::environment::Environment;
use crate::environment_config::{EnvConfig, PythonConfig};
use crate::maze::{carves_open, end_block, Carve, Maze};
use crate::maze_gen::maze_gen_handler::{is_maze_by, select_maze_algorithm, MazeType};
use crate::spanning::{is_carve_list, is_spanning_tree, outside_hangs_together};
use crate::text::spec_lowercase;
use vstd::prelude::*;

verus! {

/// Whether `maze` is a maze as [`generate_environment`] makes it: `walled`, a fully
/// walled maze, carved by `carves`, which gives `carved`, and then braided by the
/// walls `removed`. The carves are those of the chosen algorithm: a spanning tree
/// wherever that algorithm gives one.
pub open spec fn is_generated_maze(
    maze: &Maze,
    algorithm: MazeType,
    removed_walls: usize,
    walled: Maze,
    carved: Maze,
    carves: Seq<Carve>,
    removed: Seq<Carve>,
) -> bool {
    let w = maze.width as int;
    let h = maze.height as int;
    &&& walled.wf()
    &&& walled.is_fully_walled()
    &&& walled.same_frame(maze)
    &&& walled.is_carved_to(&carved, carves)
    &&& is_carve_list(w, h, maze.end@, carves)
    &&& is_maze_by(algorithm, &walled, carves)
    &&& !algorithm.keeps_single_door() || outside_hangs_together(w, h, maze.end@)
        ==> is_spanning_tree(w, h, maze.end@, carves)
    &&& carved.is_braided_to(maze, removed, removed_walls as int)
}

/// Whether `env` is an environment as [`generate_environment`] makes it: an agent
/// at the start of a maze of the given size with its end block around the middle,
/// carved by the chosen algorithm and then braided by `removed_walls` walls at most.
/// The agent has not moved yet, and has no graph.
pub open spec fn is_generated(
    env: &Environment,
    algorithm: MazeType,
    width: usize,
    height: usize,
    removed_walls: usize,
) -> bool {
    &&& env.maze.wf()
    &&& env.maze.walls_consistent()
    &&& env.maze.width == width
    &&& env.maze.height == height
    &&& env.maze.start == (0usize, (height - 1) as usize)
    &&& env.maze.end@ == end_block(width as int, height as int, (width / 2, height / 2))
    &&& env.current_location == env.maze.start
    &&& env.previous_direction is None
    &&& env.path_followed@ == seq![(env.maze.start, 0usize)]
    &&& env.visited@ == Map::<Coordinate, usize>::empty().insert(env.maze.start, 1usize)
    &&& env.overall_visited@ == Map::<Coordinate, usize>::empty().insert(env.maze.start, 1usize)
    &&& env.weighted_graph@ == Map::<Coordinate, DirectionMap>::empty()
    &&& env.steps == 0
    &&& env.total_steps == 0
    &&& env.config.maze_width == width
    &&& env.config.maze_height == height
    &&& exists|walled: Maze, carved: Maze, carves: Seq<Carve>, removed: Seq<Carve>| #[trigger]
        is_generated_maze(&env.maze, algorithm, removed_walls, walled, carved, carves, removed)
}

/// An environment with a freshly generated maze: the maze is carved by `algorithm`,
/// drawn with `rng_seed`, and then braided by `removed_walls` walls, or by as many
/// as it has to offer.
pub fn generate_environment(
    algorithm: &MazeType,
    width: usize,
    height: usize,
    removed_walls: usize,
    rng_seed: Option<u64>,
) -> (env: Environment)
    requires
        width >= 1,
        height >= 1,
        width * height <= usize::MAX,
    ensures
        is_generated(&env, *algorithm, width, height, removed_walls),
{
    let mut env = Environment::new(EnvConfig::new_rust_config(width, height));
    let ghost walled = env.maze;
    let walls = select_maze_algorithm(&env.maze, rng_seed, algorithm);
    let ghost carves = walls@;
    env.maze.break_walls_for_path(walls);
    let ghost carved = env.maze;
    let extra_walls = env.maze.break_random_walls(removed_walls);
    proof {
        assert(is_generated_maze(
            &env.maze,
            *algorithm,
            removed_walls,
            walled,
            carved,
            carves,
            extra_walls@,
        ));
    }
    env
}

/// The algorithm that goes by the name `name`, in letters large or small; Kruskal's
/// where the name is none.
pub open spec fn spec_algorithm_named(name: Seq<char>) -> MazeType {
    match MazeType::spec_from_name(spec_lowercase(name)) {
        Some(algorithm) => algorithm,
        None => MazeType::Kruzkals,
    }
}

/// Whether `env` is an environment as [`init_environment`] makes it from its
/// arguments: the settings are on record, the maze is carved by the algorithm named,
/// not braided, and the agent stands at the start with the graph of the whole maze,
/// of its decision nodes or of all its cells.
pub open spec fn is_initial(
    env: &Environment,
    width: usize,
    height: usize,
    algorithm: MazeType,
    python_config: PythonConfig,
    use_weighted_graph: bool,
) -> bool {
    &&& env.maze.wf()
    &&& env.maze.walls_consistent()
    &&& env.maze.width == width
    &&& env.maze.height == height
    &&& env.maze.start == (0usize, (height - 1) as usize)
    &&& env.maze.end@ == end_block(width as int, height as int, (width / 2, height / 2))
    &&& env.current_location == env.maze.start
    &&& env.previous_direction is None
    &&& env.path_followed@ == seq![(env.maze.start, 0usize)]
    &&& env.visited@ == Map::<Coordinate, usize>::empty().insert(env.maze.start, 1usize)
    &&& env.overall_visited@ == Map::<Coordinate, usize>::empty().insert(env.maze.start, 1usize)
    &&& env.weighted_graph@ == env.maze.spec_weighted_graph(
        env.maze.graph_nodes(None, use_weighted_graph),
    )
    &&& env.steps == 0
    &&& env.total_steps == 0
    &&& env.config == (EnvConfig { maze_width: width, maze_height: height, python_config })
    &&& exists|walled: Maze, carves: Seq<Carve>| #[trigger]
        is_generated_maze(
            &env.maze,
            algorithm,
            0,
            walled,
            env.maze,
            carves,
            Seq::<Carve>::empty(),
        )
}

/// An environment set up for training: a maze of the given size, carved by the
/// algorithm that goes by the name `gen_algorithm` (Kruskal's where the name is
/// none), drawn with `rng_seed`; the settings of the training loop on record, with
/// as many steps of exploration as the maze has cells where no number is given; and
/// the graph of the maze, of its decision nodes with `use_weighted_graph` and of all
/// its cells without.
pub fn init_environment(
    width: usize,
    height: usize,
    gen_algorithm: &str,
    allowed_revisits: usize,
    use_sparse_rewards: bool,
    use_weighted_graph: bool,
    rng_seed: Option<u64>,
    mini_exploit_runs_per_episode: usize,
    mini_explore_runs_per_episode: usize,
    exploration_steps: Option<usize>,
) -> (env: Environment)
    requires
        width >= 1,
        height >= 1,
        width * height <= usize::MAX,
    ensures
        is_initial(
            &env,
            width,
            height,
            spec_algorithm_named(gen_algorithm@),
            PythonConfig {
                allowed_revisits,
                use_sparse_rewards,
                mini_explore_runs_per_episode,
                mini_exploit_runs_per_episode,
                exploration_steps: match exploration_steps {
                    Some(steps) => steps,
                    None => (width * height) as usize,
                },
            },
            use_weighted_graph,
        ),
{
    let gen_algo = match MazeType::from_name(gen_algorithm) {
        Some(algorithm) => algorithm,
        None => MazeType::Kruzkals,
    };
    let config = EnvConfig::new(
        width,
        height,
        PythonConfig {
            allowed_revisits,
            use_sparse_rewards,
            mini_exploit_runs_per_episode,
            mini_explore_runs_per_episode,
            exploration_steps: match exploration_steps {
                Some(steps) => steps,
                None => width * height,
            },
        },
    );
    let mut env = Environment::new(config);
    let ghost walled = env.maze;
    let walls = select_maze_algorithm(&env.maze, rng_seed, &gen_algo);
    let ghost carves = walls@;
    env.maze.break_walls_for_path(walls);
    env.weighted_graph = env.maze.convert_to_weighted_graph(None, use_weighted_graph);
    proof {
        assert(Seq::<Carve>::empty().no_duplicates());
        assert(env.maze.is_braided_to(&env.maze, Seq::<Carve>::empty(), 0)) by {
            assert forall|c: Coordinate, d: Direction|
                !carves_open(
                    env.maze.width as int,
                    env.maze.height as int,
                    Seq::<Carve>::empty(),
                    c,
                    d,
                ) by {}
        }
        assert(is_generated_maze(
            &env.maze,
            gen_algo,
            0,
            walled,
            env.maze,
            carves,
            Seq::<Carve>::empty(),
        ));
    }
    env
}

/// Braids the maze of the environment by fifteen walls, or by as many as it has to
/// offer, and gives the agent the graph of the decision nodes of the maze as it is
/// then. Nothing else changes.
pub fn make_maze_imperfect(environment: &mut Environment)
    requires
        old(environment).maze.wf(),
    ensures
        exists|removed: Seq<Carve>| #[trigger]
            old(environment).maze.is_braided_to(&final(environment).maze, removed, 15),
        old(environment).maze.walls_consistent() ==> final(environment).maze.walls_consistent(),
        final(environment).weighted_graph@ == final(environment).maze.spec_weighted_graph(
            final(environment).maze.graph_nodes(None, true),
        ),
        final(environment).path_followed == old(environment).path_followed,
        final(environment).current_location == old(environment).current_location,
        final(environment).previous_direction == old(environment).previous_direction,
        final(environment).steps == old(environment).steps,
        final(environment).total_steps == old(environment).total_steps,
        final(environment).config == old(environment).config,
        final(environment).visited == old(environment).visited,
        final(environment).overall_visited == old(environment).overall_visited,
{
    let walls_to_break = environment.maze.break_random_walls(15);
    environment.weighted_graph = environment.maze.convert_to_weighted_graph(None, true);
    assert(old(environment).maze.is_braided_to(&environment.maze, walls_to_break@, 15));
}

/// `count` environments, each made by [`generate_environment`].
pub fn generate_environment_list(
    algorithm: &MazeType,
    width: usize,
    height: usize,
    count: usize,
    removed_walls: usize,
    rng_seed: Option<u64>,
) -> (environments: Vec<Environment>)
    requires
        width >= 1,
        height >= 1,
        width * height <= usize::MAX,
    ensures
        environments@.len() == count,
        forall|i: int|
            0 <= i < count ==> is_generated(
                #[trigger] &environments@[i],
                *algorithm,
                width,
                height,
                removed_walls,
            ),
{
    let mut environments: Vec<Environment> = Vec::new();
    let mut made: usize = 0;
    while made < count
        invariant
            made <= count,
            width >= 1,
            height >= 1,
            width * height <= usize::MAX,
            environments@.len() == made,
            forall|i: int|
                0 <= i < made ==> is_generated(
                    #[trigger] &environments@[i],
                    *algorithm,
                    width,
                    height,
                    removed_walls,
                ),
        decreases count - made,
    {
        let ghost before = environments@;
        environments.push(generate_environment(algorithm, width, height, removed_walls, rng_seed));
        proof {
            assert forall|i: int| 0 <= i < made + 1 implies is_generated(
                #[trigger] &environments@[i],
                *algorithm,
                width,
                height,
                removed_walls,
            ) by {
                if i < made {
                    assert(environments@[i] == before[i]);
                }
            }
        }
        made += 1;
    }
    environments
}

} // verus!
