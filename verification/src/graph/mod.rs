//! Traversal, path, community and structure algorithms on the node table.
pub mod articulation;
pub mod betweenness;
pub mod bidirectional;
pub mod bound_laws;
pub mod bounded;
pub mod budget;
pub mod centrality;
pub mod centroids;
pub mod cluster_laws;
pub mod compact;
pub mod components;
pub mod constrained;
pub mod course;
pub mod dependency;
pub mod determined;
pub mod direction_laws;
pub mod energy_laws;
pub mod harmonic;
pub mod hits;
pub mod hits_laws;
pub mod kcore;
pub mod labels;
pub mod layered;
pub mod leiden;
pub mod measure_laws;
pub mod moving;
pub mod moving_laws;
pub mod pagerank;
pub mod rank_laws;
pub mod path_laws;
pub mod pathfinding;
pub mod precedence;
pub mod reachability;
pub mod rounds;
pub mod route_laws;
pub mod similarity;
pub mod subset;
pub mod sweep;
pub mod traversal;
pub mod trial;
pub mod triangles;
pub mod vote_laws;
pub mod walk;
pub mod weighted;
pub mod workspace;
pub mod yen;
