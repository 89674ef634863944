//! Chunk generation for a block game: a scheduler, terrain, and the view of
//! distant terrain.
//!
//! The scheduler ([`scheduler`]) admits chunk stages so that no two of them
//! write the same blocks at once. The terrain half reads a world's
//! documents ([`loader`]), evaluates their density functions at points and
//! over volumes ([`df26`], [`dfeval`], [`dfsample`]), fills chunks with
//! blocks and fluids ([`fill26`], [`aquifer26`]), picks biomes
//! ([`biome26`]), carves caves ([`carvers26`], [`carverapply`]) and places ores
//! ([`ores26`]). The distant view keeps a record per chunk ([`lod26`]),
//! stores records in region files ([`lodstore`]), sends them to clients
//! ([`lodsend`], [`lodclient`]) and makes meshes of them ([`lodmesh26`]).
//!
//! Floating point numbers are carried as their bit patterns. The library
//! says which elementary operation comes when; its caller's arithmetic
//! answers ([`arith`]).

// Scheduling.
pub mod grid;
pub mod queue;
pub mod scheduler;

// Numbers, text, bytes and collections.
pub mod arith;
pub mod bitrandom;
pub mod bytes;
pub mod chunkmap;
pub mod numbers;
pub mod order;
pub mod randomlaws;
pub mod scan;
pub mod sort;
pub mod text;
pub mod volume;
pub mod xoroshiro;

// Documents.
pub mod json;
pub mod load;
pub mod loader;
pub mod oracle;

// Density functions.
pub mod bytecode;
pub mod bytewrite;
pub mod density;
pub mod densitylaws;
pub mod df26;
pub mod dfcache;
pub mod dfcheck;
pub mod dfeval;
pub mod dfmodel;
pub mod dfparts;
pub mod dfrewrite;
pub mod dfsample;
pub mod dfslice;
pub mod islandlaws;
pub mod opcode;

// Noise.
pub mod noise26;
pub mod noiselaws;
pub mod perlin26;
pub mod perlinlaws;
pub mod stacks;

// Terrain.
pub mod aquifer26;
pub mod aquiferlaws;
pub mod beard26;
pub mod beardlaws;
pub mod boundcheck;
pub mod boundflat;
pub mod boundops;
pub mod bounds26;
pub mod carverapply;
pub mod carverlaws;
pub mod carverload;
pub mod carvers26;
pub mod fill26;
pub mod fillcheck;
pub mod makinglaws;
pub mod orelaws;
pub mod oreload;
pub mod ores26;
pub mod placelaws;
pub mod pressurelaws;
pub mod skipcheck;
pub mod walklaws;

// Biomes.
pub mod biome26;
pub mod climate;
pub mod climate26;
pub mod climatelaws;
pub mod rtree;

// The distant view.
pub mod lod26;
pub mod lodclient;
pub mod lodlaws;
pub mod lodmesh26;
pub mod lodregion;
pub mod lodsend;
pub mod lodstore;
pub mod lodwire;
pub mod meshlaws;
pub mod recordlaws;
pub mod sendlaws;

// The border to the game.
pub mod bridge;
