//! Deduplicating Maven jars when a build is deployed into a `lib` directory.
//!
//! Coordinates are read from the `pom.properties` records inside jars (or
//! guessed from a jar's file name), merged by `groupId:artifactId` under a
//! whitelist that arbitrates versions or blocks keys, and the merged jars are
//! copied into the target directory.
pub mod text;
pub mod maven_coordinate;
pub mod merged_jars;
pub mod merge;
pub mod handler;
pub mod lock;
pub mod deploy;
pub mod merge_laws;
pub mod coordinate_laws;
