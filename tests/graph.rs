use component_graph::{
    BatteryType, ComponentCategory, ComponentGraph, ComponentGraphConfig, Edge, Error,
    EvChargerType, InverterType, Node, NodeFilter,
};

#[derive(Clone, Debug, PartialEq)]
struct TestComponent(u64, ComponentCategory);

impl TestComponent {
    fn new(id: u64, category: ComponentCategory) -> Self {
        TestComponent(id, category)
    }
}

impl Node for TestComponent {
    fn component_id(&self) -> u64 {
        self.0
    }

    fn category(&self) -> ComponentCategory {
        self.1
    }

    fn is_supported(&self) -> bool {
        true
    }
}

#[derive(Clone, Debug, PartialEq)]
struct TestConnection(u64, u64);

impl TestConnection {
    fn new(source: u64, destination: u64) -> Self {
        TestConnection(source, destination)
    }
}

impl Edge for TestConnection {
    fn source(&self) -> u64 {
        self.0
    }

    fn destination(&self) -> u64 {
        self.1
    }
}

#[derive(Eq, Hash, PartialEq, Copy, Clone)]
struct ComponentHandle(u64);

impl ComponentHandle {
    fn new(id: u64) -> Self {
        ComponentHandle(id)
    }

    fn component_id(&self) -> u64 {
        self.0
    }
}

struct ComponentGraphBuilder {
    components: Vec<TestComponent>,
    connections: Vec<TestConnection>,
    next_id: u64,
}

impl ComponentGraphBuilder {
    fn new() -> Self {
        ComponentGraphBuilder {
            components: Vec::new(),
            connections: Vec::new(),
            next_id: 0,
        }
    }

    fn add_component(&mut self, category: ComponentCategory) -> ComponentHandle {
        let id = self.next_id;
        self.next_id += 1;
        self.components.push(TestComponent::new(id, category));
        ComponentHandle(id)
    }

    fn add_component_with_id(&mut self, id: u64, category: ComponentCategory) -> ComponentHandle {
        self.components.push(TestComponent::new(id, category));
        ComponentHandle(id)
    }

    fn pop_component(&mut self) {
        self.components.pop();
    }

    fn pop_connection(&mut self) {
        self.connections.pop();
    }

    fn grid(&mut self) -> ComponentHandle {
        self.add_component(ComponentCategory::Grid)
    }

    fn meter(&mut self) -> ComponentHandle {
        self.add_component(ComponentCategory::Meter)
    }

    fn battery(&mut self) -> ComponentHandle {
        self.add_component(ComponentCategory::Battery(BatteryType::LiIon))
    }

    fn battery_inverter(&mut self) -> ComponentHandle {
        self.add_component(ComponentCategory::Inverter(InverterType::Battery))
    }

    fn connect(&mut self, from: ComponentHandle, to: ComponentHandle) -> &mut Self {
        self.connections.push(TestConnection::new(from.0, to.0));
        self
    }

    fn meter_bat_chain(&mut self, num_inverters: usize, num_batteries: usize) -> ComponentHandle {
        let meter = self.meter();
        let mut inverters = vec![];
        for _ in 0..num_inverters {
            let inverter = self.battery_inverter();
            self.connect(meter, inverter);
            inverters.push(inverter);
        }
        for _ in 0..num_batteries {
            let battery = self.battery();
            for inverter in &inverters {
                self.connect(*inverter, battery);
            }
        }
        meter
    }

    fn build(
        &self,
        config: Option<ComponentGraphConfig>,
    ) -> Result<ComponentGraph<TestComponent, TestConnection>, Error> {
        ComponentGraph::try_new(
            self.components.clone(),
            self.connections.clone(),
            config.unwrap_or_default(),
        )
    }
}

fn default_config() -> ComponentGraphConfig {
    ComponentGraphConfig::default()
}

// ----- Construction -----

fn creation_nodes_and_edges() -> (ComponentGraphBuilder, ComponentHandle) {
    let mut builder = ComponentGraphBuilder::new();

    let grid_meter = builder.meter();
    let meter_bat_chain = builder.meter_bat_chain(1, 1);
    builder.connect(grid_meter, meter_bat_chain);

    let meter_bat_chain = builder.meter_bat_chain(1, 1);
    builder.connect(grid_meter, meter_bat_chain);

    (builder, grid_meter)
}

#[test]
fn test_component_validation() {
    let (mut builder, grid_meter) = creation_nodes_and_edges();

    assert!(builder
        .build(None)
        .is_err_and(|e| e == Error::invalid_graph("No grid component found.")),);

    let grid = builder.grid();
    builder.connect(grid, grid_meter);

    assert!(builder.build(None).is_ok());

    builder.add_component_with_id(2, ComponentCategory::Meter);
    assert!(builder
        .build(None)
        .is_err_and(|e| e == Error::invalid_graph("Duplicate component ID found: 2")));

    builder.pop_component();
    builder.add_component(ComponentCategory::Unspecified);
    assert!(builder.build(None).is_err_and(
        |e| e == Error::invalid_component("ComponentCategory not specified for component: 8")
    ));

    builder.pop_component();
    let unspec_inv = builder.add_component(ComponentCategory::Inverter(InverterType::Unspecified));
    builder.connect(grid_meter, unspec_inv);

    // With the default configuration, unspecified inverter types are refused.
    assert!(builder.build(None).is_err_and(
        |e| e == Error::invalid_component("InverterType not specified for inverter: 9")
    ));
    // Where they are allowed, they count as battery inverters.
    assert!(builder
        .build(Some(ComponentGraphConfig {
            allow_unspecified_inverters: true,
            ..Default::default()
        }))
        .is_ok());

    builder.pop_component();
    builder.pop_connection();
    builder.add_component(ComponentCategory::Grid);
    assert!(builder
        .build(None)
        .is_err_and(|e| e == Error::invalid_graph("Multiple grid components found.")));

    builder.pop_component();
    assert!(builder.build(None).is_ok());
}

#[test]
fn test_connection_validation() {
    let (mut builder, grid_meter) = creation_nodes_and_edges();

    let grid = builder.grid();
    builder.connect(grid, grid_meter);

    builder.connect(grid, grid);
    assert!(builder.build(None).is_err_and(|e| e
        == Error::invalid_connection("Connection:(7, 7) Can't connect a component to itself.")));
    builder.pop_connection();

    builder.connect(grid_meter, ComponentHandle::new(9));
    assert!(builder.build(None).is_err_and(|e| e
        == Error::invalid_connection("Connection:(0, 9) Can't find a component with ID 9")));

    builder.pop_connection();
    assert!(builder.build(None).is_ok());
}

// ----- Retrieval -----

fn retrieval_nodes_and_edges() -> (Vec<TestComponent>, Vec<TestConnection>) {
    let components = vec![
        TestComponent::new(6, ComponentCategory::Meter),
        TestComponent::new(1, ComponentCategory::Grid),
        TestComponent::new(7, ComponentCategory::Inverter(InverterType::Battery)),
        TestComponent::new(3, ComponentCategory::Meter),
        TestComponent::new(5, ComponentCategory::Battery(BatteryType::Unspecified)),
        TestComponent::new(8, ComponentCategory::Battery(BatteryType::LiIon)),
        TestComponent::new(4, ComponentCategory::Inverter(InverterType::Battery)),
        TestComponent::new(2, ComponentCategory::Meter),
    ];
    let connections = vec![
        TestConnection::new(3, 4),
        TestConnection::new(1, 2),
        TestConnection::new(7, 8),
        TestConnection::new(4, 5),
        TestConnection::new(2, 3),
        TestConnection::new(6, 7),
        TestConnection::new(2, 6),
    ];

    (components, connections)
}

#[test]
fn test_component() -> Result<(), Error> {
    let config = ComponentGraphConfig::default();
    let (components, connections) = retrieval_nodes_and_edges();
    let graph = ComponentGraph::try_new(components.clone(), connections.clone(), config)?;

    assert_eq!(
        graph.component(1),
        Ok(&TestComponent::new(1, ComponentCategory::Grid))
    );
    assert_eq!(
        graph.component(5),
        Ok(&TestComponent::new(
            5,
            ComponentCategory::Battery(BatteryType::Unspecified)
        ))
    );
    assert_eq!(
        graph.component(9),
        Err(Error::component_not_found("Component with id 9 not found."))
    );

    Ok(())
}

#[test]
fn test_components() -> Result<(), Error> {
    let config = ComponentGraphConfig::default();
    let (components, connections) = retrieval_nodes_and_edges();
    let graph = ComponentGraph::try_new(components.clone(), connections.clone(), config)?;

    assert!(graph.components().into_iter().eq(components.iter()));
    assert!(graph
        .components()
        .into_iter()
        .filter(|x| x.category().is_battery())
        .eq(&[
            TestComponent::new(5, ComponentCategory::Battery(BatteryType::Unspecified)),
            TestComponent::new(8, ComponentCategory::Battery(BatteryType::LiIon))
        ]));

    Ok(())
}

#[test]
fn test_connections() -> Result<(), Error> {
    let config = ComponentGraphConfig::default();
    let (components, connections) = retrieval_nodes_and_edges();
    let graph = ComponentGraph::try_new(components.clone(), connections.clone(), config)?;

    assert!(graph.connections().into_iter().eq(connections.iter()));

    assert!(graph
        .connections()
        .into_iter()
        .filter(|x| x.source() == 2)
        .eq(&[TestConnection::new(2, 3), TestConnection::new(2, 6)]));

    Ok(())
}

#[test]
fn test_neighbors() -> Result<(), Error> {
    let config = ComponentGraphConfig::default();
    let (components, connections) = retrieval_nodes_and_edges();
    let graph = ComponentGraph::try_new(components.clone(), connections.clone(), config)?;

    assert!(graph.predecessors(1).is_ok_and(|x| x.is_empty()));

    assert!(graph
        .predecessors(3)
        .is_ok_and(|x| x == vec![&TestComponent::new(2, ComponentCategory::Meter)]));

    assert!(graph
        .successors(1)
        .is_ok_and(|x| x == vec![&TestComponent::new(2, ComponentCategory::Meter)]));

    assert!(graph.successors(2).is_ok_and(|x| {
        x == vec![
            &TestComponent::new(6, ComponentCategory::Meter),
            &TestComponent::new(3, ComponentCategory::Meter),
        ]
    }));

    assert!(graph.successors(5).is_ok_and(|x| x.is_empty()));

    assert!(graph
        .predecessors(32)
        .is_err_and(|e| e == Error::component_not_found("Component with id 32 not found.")));
    assert!(graph
        .successors(32)
        .is_err_and(|e| e == Error::component_not_found("Component with id 32 not found.")));

    Ok(())
}

#[test]
fn test_siblings() -> Result<(), Error> {
    let mut builder = ComponentGraphBuilder::new();
    let grid = builder.grid();

    // A grid meter with no successors.
    let grid_meter = builder.meter();
    builder.connect(grid, grid_meter);

    assert_eq!(grid_meter.component_id(), 1);

    // A battery chain with three inverters and two batteries.
    let meter_bat_chain = builder.meter_bat_chain(3, 2);
    builder.connect(grid_meter, meter_bat_chain);

    assert_eq!(meter_bat_chain.component_id(), 2);

    let graph = builder.build(None)?;
    assert_eq!(
        graph.siblings_from_predecessors(3).unwrap(),
        [
            &TestComponent::new(5, ComponentCategory::Inverter(InverterType::Battery)),
            &TestComponent::new(4, ComponentCategory::Inverter(InverterType::Battery))
        ]
    );

    assert_eq!(
        graph.siblings_from_successors(3).unwrap(),
        [
            &TestComponent::new(5, ComponentCategory::Inverter(InverterType::Battery)),
            &TestComponent::new(4, ComponentCategory::Inverter(InverterType::Battery))
        ]
    );

    assert_eq!(
        graph.siblings_from_successors(6).unwrap(),
        Vec::<&TestComponent>::new()
    );

    assert_eq!(
        graph.siblings_from_predecessors(6).unwrap(),
        [&TestComponent::new(
            7,
            ComponentCategory::Battery(BatteryType::LiIon)
        )]
    );

    // Two dangling meters under the grid meter.
    let dangling_meter = builder.meter();
    builder.connect(grid_meter, dangling_meter);
    assert_eq!(dangling_meter.component_id(), 8);

    let dangling_meter = builder.meter();
    builder.connect(grid_meter, dangling_meter);
    assert_eq!(dangling_meter.component_id(), 9);

    let graph = builder.build(None)?;
    assert_eq!(
        graph.siblings_from_predecessors(8).unwrap(),
        [
            &TestComponent::new(9, ComponentCategory::Meter),
            &TestComponent::new(2, ComponentCategory::Meter),
        ]
    );

    Ok(())
}

#[test]
fn test_find_all() -> Result<(), Error> {
    let (components, connections) = retrieval_nodes_and_edges();
    let graph = ComponentGraph::try_new(
        components.clone(),
        connections.clone(),
        ComponentGraphConfig::default(),
    )?;

    let found = graph.find_all(1, NodeFilter::Meters, false)?;
    assert_eq!(found, vec![2]);

    let found = graph.find_all(1, NodeFilter::Meters, true)?;
    assert_eq!(found, vec![2, 3, 6]);

    let found = graph.find_all(1, NodeFilter::BatteryInverters, true)?;
    assert_eq!(found, vec![4, 7]);

    let found = graph.find_all(6, NodeFilter::Meters, true)?;
    assert_eq!(found, vec![6]);

    assert_eq!(
        graph.find_all(32, NodeFilter::Meters, true),
        Err(Error::component_not_found("Component with id 32 not found."))
    );

    Ok(())
}

// ----- Validation -----

fn validation_nodes_and_edges() -> (Vec<TestComponent>, Vec<TestConnection>) {
    let components = vec![
        TestComponent::new(6, ComponentCategory::Meter),
        TestComponent::new(1, ComponentCategory::Grid),
        TestComponent::new(7, ComponentCategory::Inverter(InverterType::Battery)),
        TestComponent::new(10, ComponentCategory::Inverter(InverterType::Solar)),
        TestComponent::new(3, ComponentCategory::Meter),
        TestComponent::new(5, ComponentCategory::Battery(BatteryType::Unspecified)),
        TestComponent::new(8, ComponentCategory::Battery(BatteryType::Unspecified)),
        TestComponent::new(4, ComponentCategory::Inverter(InverterType::Battery)),
        TestComponent::new(2, ComponentCategory::Meter),
        TestComponent::new(9, ComponentCategory::Meter),
    ];
    let connections = vec![
        TestConnection::new(3, 4),
        TestConnection::new(1, 2),
        TestConnection::new(7, 8),
        TestConnection::new(4, 5),
        TestConnection::new(2, 3),
        TestConnection::new(6, 7),
        TestConnection::new(2, 6),
        TestConnection::new(2, 9),
        TestConnection::new(9, 10),
    ];

    (components, connections)
}

#[test]
fn test_connected_graph_validation() {
    let config = ComponentGraphConfig::default();
    let (mut components, mut connections) = validation_nodes_and_edges();

    assert!(ComponentGraph::try_new(components.clone(), connections.clone(), config).is_ok());
    components.push(TestComponent::new(11, ComponentCategory::Meter));
    let Err(err) = ComponentGraph::try_new(components.clone(), connections.clone(), config) else {
        panic!()
    };
    assert!(
        ComponentGraph::try_new(components.clone(), connections.clone(), config)
            .is_err_and(|e| e == Error::invalid_graph("Nodes [11] are not connected to the root.")),
        "{:?}",
        err
    );

    components.push(TestComponent::new(12, ComponentCategory::Meter));

    assert!(
        ComponentGraph::try_new(components.clone(), connections.clone(), config).is_err_and(
            |e| e == Error::invalid_graph("Nodes [11, 12] are not connected to the root.")
        )
    );

    connections.push(TestConnection::new(11, 12));

    assert!(
        ComponentGraph::try_new(components.clone(), connections.clone(), config).is_err_and(
            |e| e == Error::invalid_graph("Nodes [11, 12] are not connected to the root.")
        )
    );

    connections.pop();
    components.pop();
    components.pop();

    assert!(ComponentGraph::try_new(components.clone(), connections.clone(), config).is_ok());
}

#[test]
fn test_acyclicity_validation() {
    let config = ComponentGraphConfig::default();
    let (components, mut connections) = validation_nodes_and_edges();

    assert!(ComponentGraph::try_new(components.clone(), connections.clone(), config).is_ok());

    connections.push(TestConnection::new(3, 2));
    assert!(
        ComponentGraph::try_new(components.clone(), connections.clone(), config)
            .is_err_and(|e| e == Error::invalid_graph("Cycle detected: 2 -> 3 -> 2")),
    );

    connections.pop();
    connections.push(TestConnection::new(4, 2));
    assert!(ComponentGraph::try_new(components.clone(), connections.clone(), config)
        .is_err_and(|e| e == Error::invalid_graph("Cycle detected: 2 -> 3 -> 4 -> 2")));

    connections.pop();
    connections.push(TestConnection::new(5, 2));
    assert!(ComponentGraph::try_new(components.clone(), connections.clone(), config)
        .is_err_and(|e| e == Error::invalid_graph("Cycle detected: 2 -> 3 -> 4 -> 5 -> 2")));

    connections.pop();
    connections.push(TestConnection::new(4, 3));
    assert!(ComponentGraph::try_new(components.clone(), connections.clone(), config)
        .is_err_and(|e| e == Error::invalid_graph("Cycle detected: 3 -> 4 -> 3")));

    connections.pop();
    connections.push(TestConnection::new(5, 3));
    assert!(ComponentGraph::try_new(components.clone(), connections.clone(), config)
        .is_err_and(|e| e == Error::invalid_graph("Cycle detected: 3 -> 4 -> 5 -> 3")));

    connections.pop();
    connections.push(TestConnection::new(5, 4));
    assert!(ComponentGraph::try_new(components.clone(), connections.clone(), config)
        .is_err_and(|e| e == Error::invalid_graph("Cycle detected: 4 -> 5 -> 4")));

    connections.pop();
    connections.push(TestConnection::new(9, 2));
    assert!(ComponentGraph::try_new(components.clone(), connections.clone(), config)
        .is_err_and(|e| e == Error::invalid_graph("Cycle detected: 2 -> 9 -> 2")));

    connections.pop();
    assert!(ComponentGraph::try_new(components.clone(), connections.clone(), config).is_ok());
}

#[test]
fn test_validate_root() {
    let config = ComponentGraphConfig::default();
    let components = vec![
        TestComponent::new(1, ComponentCategory::Grid),
        TestComponent::new(2, ComponentCategory::Meter),
    ];
    let connections = vec![TestConnection::new(1, 2)];
    assert!(ComponentGraph::try_new(components, connections, config).is_ok());

    let components = vec![TestComponent::new(1, ComponentCategory::Grid)];
    let connections: Vec<TestConnection> = vec![];
    assert!(ComponentGraph::try_new(components, connections, config)
        .is_err_and(|e| { e == Error::invalid_graph("Grid:1 must have at least one successor.") }),);

    let components = vec![
        TestComponent::new(1, ComponentCategory::Grid),
        TestComponent::new(2, ComponentCategory::Meter),
        TestComponent::new(3, ComponentCategory::Meter),
    ];
    let connections: Vec<TestConnection> = vec![
        TestConnection::new(1, 2),
        TestConnection::new(1, 3),
        TestConnection::new(2, 3),
    ];

    assert!(
        ComponentGraph::try_new(components, connections, config).is_err_and(|e| {
            e == Error::invalid_graph(
                "Grid:1 can't have successors with multiple predecessors. Found Meter:3.",
            )
        }),
    );
}

#[test]
fn test_validate_meter() {
    let config = ComponentGraphConfig::default();
    let components = vec![
        TestComponent::new(1, ComponentCategory::Grid),
        TestComponent::new(2, ComponentCategory::Meter),
        TestComponent::new(3, ComponentCategory::Battery(BatteryType::LiIon)),
    ];
    let connections = vec![TestConnection::new(1, 2), TestConnection::new(2, 3)];
    assert!(
        ComponentGraph::try_new(components, connections, config).is_err_and(|e| {
            e.to_string()
                == "InvalidGraph: Multiple validation failures:
    InvalidGraph: Meter:2 can only have successors that are not Batteries. Found Battery(LiIon):3.
    InvalidGraph: Battery(LiIon):3 can only have predecessors that are BatteryInverters or HybridInverters. Found Meter:2."
        })
    );
}

#[test]
fn test_validate_battery_inverter() {
    let config = ComponentGraphConfig::default();
    let mut components = vec![
        TestComponent::new(1, ComponentCategory::Grid),
        TestComponent::new(2, ComponentCategory::Meter),
        TestComponent::new(3, ComponentCategory::Inverter(InverterType::Battery)),
        TestComponent::new(4, ComponentCategory::Electrolyzer),
    ];
    let mut connections = vec![
        TestConnection::new(1, 2),
        TestConnection::new(2, 3),
        TestConnection::new(3, 4),
    ];
    let Err(err) = ComponentGraph::try_new(components.clone(), connections.clone(), config) else {
        panic!()
    };
    assert!(
        ComponentGraph::try_new(components.clone(), connections.clone(), config).is_err_and(|e| {
            e == Error::invalid_graph(
                "BatteryInverter:3 can only have successors that are Batteries. Found Electrolyzer:4.",
            )
        }),
        "{}",
        err.to_string()
    );

    components.pop();
    connections.pop();

    assert!(
        ComponentGraph::try_new(components.clone(), connections.clone(), config).is_err_and(|e| {
            e == Error::invalid_graph("BatteryInverter:3 must have at least one successor.")
        }),
    );

    components.push(TestComponent::new(
        4,
        ComponentCategory::Battery(BatteryType::LiIon),
    ));
    connections.push(TestConnection::new(3, 4));

    assert!(ComponentGraph::try_new(components, connections, config).is_ok());
}

#[test]
fn test_validate_pv_inverter() {
    let config = ComponentGraphConfig::default();
    let mut components = vec![
        TestComponent::new(1, ComponentCategory::Grid),
        TestComponent::new(2, ComponentCategory::Meter),
        TestComponent::new(3, ComponentCategory::Inverter(InverterType::Solar)),
        TestComponent::new(4, ComponentCategory::Electrolyzer),
    ];
    let mut connections = vec![
        TestConnection::new(1, 2),
        TestConnection::new(2, 3),
        TestConnection::new(3, 4),
    ];
    // With the default configuration the check fails.
    assert!(
        ComponentGraph::try_new(components.clone(), connections.clone(), config).is_err_and(|e| {
            e == Error::invalid_graph("SolarInverter:3 can't have any successors. Found Electrolyzer:4.")
        }),
    );
    // Where component validation failures are allowed, it passes.
    assert!(ComponentGraph::try_new(
        components.clone(),
        connections.clone(),
        ComponentGraphConfig {
            allow_component_validation_failures: true,
            ..config
        }
    )
    .is_ok());

    components.pop();
    connections.pop();

    assert!(ComponentGraph::try_new(components, connections, config).is_ok());
}

#[test]
fn test_validate_hybrid_inverter() {
    let config = ComponentGraphConfig::default();
    let mut components = vec![
        TestComponent::new(1, ComponentCategory::Grid),
        TestComponent::new(2, ComponentCategory::Meter),
        TestComponent::new(3, ComponentCategory::Inverter(InverterType::Hybrid)),
        TestComponent::new(4, ComponentCategory::Electrolyzer),
    ];
    let mut connections = vec![
        TestConnection::new(1, 2),
        TestConnection::new(2, 3),
        TestConnection::new(3, 4),
    ];
    assert!(
        ComponentGraph::try_new(components.clone(), connections.clone(), config).is_err_and(|e| {
            e == Error::invalid_graph("HybridInverter:3 can only have successors that are Batteries. Found Electrolyzer:4.")
        }),
    );

    components.pop();
    connections.pop();

    assert!(ComponentGraph::try_new(components.clone(), connections.clone(), config).is_ok());

    components.push(TestComponent::new(
        4,
        ComponentCategory::Battery(BatteryType::LiIon),
    ));
    connections.push(TestConnection::new(3, 4));

    assert!(ComponentGraph::try_new(components, connections, config).is_ok());
}

#[test]
fn test_validate_batteries() {
    let config = ComponentGraphConfig::default();
    let mut components = vec![
        TestComponent::new(1, ComponentCategory::Grid),
        TestComponent::new(2, ComponentCategory::Meter),
        TestComponent::new(3, ComponentCategory::Inverter(InverterType::Battery)),
        TestComponent::new(4, ComponentCategory::Battery(BatteryType::NaIon)),
        TestComponent::new(5, ComponentCategory::Battery(BatteryType::LiIon)),
    ];
    let mut connections = vec![
        TestConnection::new(1, 2),
        TestConnection::new(2, 3),
        TestConnection::new(3, 4),
        TestConnection::new(4, 5),
    ];
    assert!(
        ComponentGraph::try_new(components.clone(), connections.clone(), config).is_err_and(|e| {
            e == Error::invalid_graph(
                "Battery(NaIon):4 can't have any successors. Found Battery(LiIon):5.",
            )
        }),
    );

    components.pop();
    connections.pop();

    assert!(ComponentGraph::try_new(components.clone(), connections.clone(), config).is_ok());

    components.pop();
    components.pop();

    components.push(TestComponent::new(
        3,
        ComponentCategory::Inverter(InverterType::Hybrid),
    ));
    components.push(TestComponent::new(
        4,
        ComponentCategory::Battery(BatteryType::LiIon),
    ));

    assert!(ComponentGraph::try_new(components.clone(), connections.clone(), config).is_ok());

    let components = vec![
        TestComponent::new(1, ComponentCategory::Grid),
        TestComponent::new(2, ComponentCategory::Battery(BatteryType::LiIon)),
    ];
    let connections = vec![TestConnection::new(1, 2)];

    assert!(
        ComponentGraph::try_new(components, connections, config).is_err_and(|e| {
            e == Error::invalid_graph("Battery(LiIon):2 can only have predecessors that are BatteryInverters or HybridInverters. Found Grid:1.")
        }),
    );
}

#[test]
fn test_validate_ev_chargers() {
    let config = ComponentGraphConfig::default();
    let mut components = vec![
        TestComponent::new(1, ComponentCategory::Grid),
        TestComponent::new(2, ComponentCategory::Meter),
        TestComponent::new(3, ComponentCategory::EvCharger(EvChargerType::Dc)),
        TestComponent::new(4, ComponentCategory::Electrolyzer),
    ];
    let mut connections = vec![
        TestConnection::new(1, 2),
        TestConnection::new(2, 3),
        TestConnection::new(3, 4),
    ];
    assert!(
        ComponentGraph::try_new(components.clone(), connections.clone(), config).is_err_and(|e| {
            e == Error::invalid_graph("EVCharger(DC):3 can't have any successors. Found Electrolyzer:4.")
        }),
    );

    components.pop();
    connections.pop();

    assert!(ComponentGraph::try_new(components, connections, config).is_ok());
}

#[test]
fn test_validate_chps() {
    let config = ComponentGraphConfig::default();
    let mut components = vec![
        TestComponent::new(1, ComponentCategory::Grid),
        TestComponent::new(2, ComponentCategory::Meter),
        TestComponent::new(3, ComponentCategory::Chp),
        TestComponent::new(4, ComponentCategory::Electrolyzer),
    ];
    let mut connections = vec![
        TestConnection::new(1, 2),
        TestConnection::new(2, 3),
        TestConnection::new(3, 4),
    ];
    assert!(
        ComponentGraph::try_new(components.clone(), connections.clone(), config).is_err_and(|e| {
            e == Error::invalid_graph("CHP:3 can't have any successors. Found Electrolyzer:4.")
        }),
    );

    components.pop();
    connections.pop();

    assert!(ComponentGraph::try_new(components, connections, config).is_ok());
}

// ----- Meter roles -----

fn roles_nodes_and_edges() -> (Vec<TestComponent>, Vec<TestConnection>) {
    let components = vec![
        TestComponent::new(1, ComponentCategory::Grid),
        TestComponent::new(2, ComponentCategory::Meter),
        TestComponent::new(3, ComponentCategory::Meter),
        TestComponent::new(4, ComponentCategory::Inverter(InverterType::Battery)),
        TestComponent::new(5, ComponentCategory::Battery(BatteryType::NaIon)),
        TestComponent::new(6, ComponentCategory::Meter),
        TestComponent::new(7, ComponentCategory::Inverter(InverterType::Battery)),
        TestComponent::new(8, ComponentCategory::Battery(BatteryType::Unspecified)),
        TestComponent::new(9, ComponentCategory::Meter),
        TestComponent::new(10, ComponentCategory::Inverter(InverterType::Solar)),
        TestComponent::new(11, ComponentCategory::Inverter(InverterType::Solar)),
        TestComponent::new(12, ComponentCategory::Meter),
        TestComponent::new(13, ComponentCategory::Chp),
        TestComponent::new(14, ComponentCategory::Meter),
        TestComponent::new(15, ComponentCategory::Chp),
        TestComponent::new(16, ComponentCategory::Inverter(InverterType::Solar)),
        TestComponent::new(17, ComponentCategory::Inverter(InverterType::Battery)),
        TestComponent::new(18, ComponentCategory::Battery(BatteryType::LiIon)),
    ];
    let connections = vec![
        TestConnection::new(1, 2),
        TestConnection::new(2, 3),
        TestConnection::new(3, 4),
        TestConnection::new(4, 5),
        TestConnection::new(2, 6),
        TestConnection::new(6, 7),
        TestConnection::new(7, 8),
        TestConnection::new(2, 9),
        TestConnection::new(9, 10),
        TestConnection::new(9, 11),
        TestConnection::new(2, 12),
        TestConnection::new(12, 13),
        TestConnection::new(2, 14),
        TestConnection::new(14, 15),
        TestConnection::new(14, 16),
        TestConnection::new(14, 17),
        TestConnection::new(17, 18),
    ];

    (components, connections)
}

fn with_multiple_grid_meters() -> (Vec<TestComponent>, Vec<TestConnection>) {
    let (mut components, mut connections) = roles_nodes_and_edges();

    components.push(TestComponent::new(19, ComponentCategory::Meter));
    connections.push(TestConnection::new(1, 19));

    components.push(TestComponent::new(20, ComponentCategory::Meter));
    connections.push(TestConnection::new(1, 20));

    components.push(TestComponent::new(21, ComponentCategory::Meter));
    components.push(TestComponent::new(
        22,
        ComponentCategory::Inverter(InverterType::Battery),
    ));
    components.push(TestComponent::new(
        23,
        ComponentCategory::Battery(BatteryType::Unspecified),
    ));
    connections.push(TestConnection::new(20, 21));
    connections.push(TestConnection::new(21, 22));
    connections.push(TestConnection::new(22, 23));

    components.push(TestComponent::new(24, ComponentCategory::Meter));
    components.push(TestComponent::new(
        25,
        ComponentCategory::Inverter(InverterType::Solar),
    ));
    connections.push(TestConnection::new(20, 24));
    connections.push(TestConnection::new(24, 25));

    (components, connections)
}

fn without_grid_meters() -> (Vec<TestComponent>, Vec<TestConnection>) {
    let (mut components, mut connections) = roles_nodes_and_edges();

    components.push(TestComponent::new(20, ComponentCategory::Meter));
    components.push(TestComponent::new(
        21,
        ComponentCategory::EvCharger(EvChargerType::Ac),
    ));
    connections.push(TestConnection::new(1, 20));
    connections.push(TestConnection::new(20, 21));

    (components, connections)
}

fn find_matching_components(
    components: Vec<TestComponent>,
    connections: Vec<TestConnection>,
    filter: impl Fn(&ComponentGraph<TestComponent, TestConnection>, u64) -> Result<bool, Error>,
) -> Result<Vec<u64>, Error> {
    let config = ComponentGraphConfig::default();

    let graph = ComponentGraph::try_new(components.clone(), connections.clone(), config)?;

    let mut found_meters = vec![];
    for comp in graph.components() {
        if filter(&graph, comp.component_id())? {
            found_meters.push(comp.component_id());
        }
    }

    Ok(found_meters)
}

#[test]
fn test_is_pv_meter() -> Result<(), Error> {
    let (components, connections) = roles_nodes_and_edges();
    assert_eq!(
        find_matching_components(components, connections, |g, id| g.is_pv_meter(id))?,
        vec![9],
    );

    let (components, connections) = with_multiple_grid_meters();
    assert_eq!(
        find_matching_components(components, connections, |g, id| g.is_pv_meter(id))?,
        vec![9, 24],
    );

    let (components, connections) = without_grid_meters();
    assert_eq!(
        find_matching_components(components, connections, |g, id| g.is_pv_meter(id))?,
        vec![9],
    );

    Ok(())
}

#[test]
fn test_is_battery_meter() -> Result<(), Error> {
    let (components, connections) = roles_nodes_and_edges();
    assert_eq!(
        find_matching_components(components, connections, |g, id| g.is_battery_meter(id))?,
        vec![3, 6],
    );

    let (components, connections) = with_multiple_grid_meters();
    assert_eq!(
        find_matching_components(components, connections, |g, id| g.is_battery_meter(id))?,
        vec![3, 6, 21],
    );

    let (components, connections) = without_grid_meters();
    assert_eq!(
        find_matching_components(components, connections, |g, id| g.is_battery_meter(id))?,
        vec![3, 6],
    );

    Ok(())
}

#[test]
fn test_is_chp_meter() -> Result<(), Error> {
    let (components, connections) = roles_nodes_and_edges();
    assert_eq!(
        find_matching_components(components, connections, |g, id| g.is_chp_meter(id))?,
        vec![12],
    );

    let (components, connections) = with_multiple_grid_meters();
    assert_eq!(
        find_matching_components(components, connections, |g, id| g.is_chp_meter(id))?,
        vec![12],
    );

    let (components, connections) = without_grid_meters();
    assert_eq!(
        find_matching_components(components, connections, |g, id| g.is_chp_meter(id))?,
        vec![12],
    );

    Ok(())
}

#[test]
fn test_is_ev_charger_meter() -> Result<(), Error> {
    let (components, connections) = roles_nodes_and_edges();
    assert_eq!(
        find_matching_components(components, connections, |g, id| g.is_ev_charger_meter(id))?,
        Vec::<u64>::new(),
    );

    let (components, connections) = with_multiple_grid_meters();
    assert_eq!(
        find_matching_components(components, connections, |g, id| g.is_ev_charger_meter(id))?,
        Vec::<u64>::new(),
    );

    let (components, connections) = without_grid_meters();
    assert_eq!(
        find_matching_components(components, connections, |g, id| g.is_ev_charger_meter(id))?,
        vec![20],
    );

    Ok(())
}

// ----- Further cases -----

#[test]
fn empty_component_set_has_no_grid() {
    let components: Vec<TestComponent> = vec![];
    let connections: Vec<TestConnection> = vec![];
    let r = ComponentGraph::try_new(components, connections, default_config());
    assert!(r.is_err_and(|e| e == Error::invalid_graph("No grid component found.")));
}

#[test]
fn lone_grid_needs_a_successor() {
    let components = vec![TestComponent::new(5, ComponentCategory::Grid)];
    let connections: Vec<TestConnection> = vec![];
    let r = ComponentGraph::try_new(components, connections, default_config());
    assert!(r.is_err_and(|e| e == Error::invalid_graph("Grid:5 must have at least one successor.")));
}

#[test]
fn battery_under_grid_is_refused() {
    let components = vec![
        TestComponent::new(1, ComponentCategory::Grid),
        TestComponent::new(2, ComponentCategory::Battery(BatteryType::NaIon)),
    ];
    let connections = vec![TestConnection::new(1, 2)];
    let r = ComponentGraph::try_new(components, connections, default_config());
    assert!(r.is_err_and(|e| e
        == Error::invalid_graph(
            "Battery(NaIon):2 can only have predecessors that are BatteryInverters or HybridInverters. Found Grid:1."
        )));
}

#[test]
fn self_loop_is_refused() {
    let components = vec![
        TestComponent::new(1, ComponentCategory::Grid),
        TestComponent::new(2, ComponentCategory::Meter),
    ];
    let connections = vec![TestConnection::new(1, 2), TestConnection::new(2, 2)];
    let r = ComponentGraph::try_new(components, connections, default_config());
    assert!(r.is_err_and(|e| e
        == Error::invalid_connection("Connection:(2, 2) Can't connect a component to itself.")));
}

#[test]
fn error_text_names_the_kind() {
    let e = Error::invalid_connection("Connection:(2, 2) Can't connect a component to itself.");
    assert_eq!(
        e.to_string(),
        "InvalidConnection: Connection:(2, 2) Can't connect a component to itself."
    );
    assert_eq!(
        Error::internal("x").to_string(),
        "Internal: x"
    );
}

#[test]
fn repeated_connections_collapse_keeping_the_last() {
    #[derive(Clone, Debug, PartialEq)]
    struct Tagged(u64, u64, u32);
    impl Edge for Tagged {
        fn source(&self) -> u64 {
            self.0
        }
        fn destination(&self) -> u64 {
            self.1
        }
    }
    let components = vec![
        TestComponent::new(1, ComponentCategory::Grid),
        TestComponent::new(2, ComponentCategory::Meter),
        TestComponent::new(3, ComponentCategory::Meter),
    ];
    let connections = vec![Tagged(1, 2, 0), Tagged(2, 3, 1), Tagged(1, 2, 2)];
    let graph = ComponentGraph::try_new(components, connections, default_config()).unwrap();
    assert_eq!(graph.connections(), vec![&Tagged(1, 2, 2), &Tagged(2, 3, 1)]);
    assert_eq!(graph.successors(1).unwrap().len(), 1);
}

#[test]
fn unconnected_components_may_be_allowed() {
    let components = vec![
        TestComponent::new(1, ComponentCategory::Grid),
        TestComponent::new(2, ComponentCategory::Meter),
        TestComponent::new(3, ComponentCategory::Meter),
    ];
    let connections = vec![TestConnection::new(1, 2)];
    let allow = ComponentGraphConfig {
        allow_unconnected_components: true,
        ..Default::default()
    };
    assert!(ComponentGraph::try_new(components.clone(), connections.clone(), allow).is_ok());
    assert!(ComponentGraph::try_new(components, connections, default_config())
        .is_err_and(|e| e == Error::invalid_graph("Nodes [3] are not connected to the root.")));
}

#[test]
fn category_names() {
    assert_eq!(ComponentCategory::Inverter(InverterType::Solar).to_string(), "SolarInverter");
    assert_eq!(ComponentCategory::EvCharger(EvChargerType::Dc).to_string(), "EVCharger(DC)");
    assert_eq!(ComponentCategory::Battery(BatteryType::LiIon).to_string(), "Battery(LiIon)");
    assert_eq!(ComponentCategory::Chp.to_string(), "CHP");
    assert_eq!(ComponentCategory::Hvac.to_string(), "HVAC");
}

#[test]
fn valid_graph_successors_resolve() {
    let (components, connections) = roles_nodes_and_edges();
    let graph = ComponentGraph::try_new(components, connections, default_config()).unwrap();
    for c in graph.components() {
        for s in graph.successors(c.component_id()).unwrap() {
            assert_eq!(graph.component(s.component_id()), Ok(s));
        }
    }
}

#[test]
fn meter_roles_are_exclusive() {
    let (components, connections) = roles_nodes_and_edges();
    let graph = ComponentGraph::try_new(components, connections, default_config()).unwrap();
    for c in graph.components() {
        let id = c.component_id();
        let roles = [
            graph.is_pv_meter(id).unwrap(),
            graph.is_battery_meter(id).unwrap(),
            graph.is_ev_charger_meter(id).unwrap(),
            graph.is_chp_meter(id).unwrap(),
        ];
        assert!(roles.iter().filter(|r| **r).count() <= 1);
        assert_eq!(graph.is_component_meter(id).unwrap(), roles.iter().any(|r| *r));
    }
    assert_eq!(graph.is_component_meter(14).unwrap(), false);
    assert_eq!(
        graph.is_pv_meter(99),
        Err(Error::component_not_found("Component with id 99 not found."))
    );
}

#[test]
fn cycle_out_of_the_roots_reach_is_refused() {
    let components = vec![
        TestComponent::new(1, ComponentCategory::Grid),
        TestComponent::new(2, ComponentCategory::Meter),
        TestComponent::new(3, ComponentCategory::Meter),
        TestComponent::new(4, ComponentCategory::Meter),
    ];
    let connections = vec![
        TestConnection::new(1, 2),
        TestConnection::new(3, 4),
        TestConnection::new(4, 3),
    ];
    let allow = ComponentGraphConfig {
        allow_unconnected_components: true,
        ..Default::default()
    };
    assert!(ComponentGraph::try_new(components, connections, allow)
        .is_err_and(|e| e == Error::invalid_graph("Cycle detected: 3 -> 4 -> 3")));
}

#[test]
fn cycle_is_reported_before_other_failures() {
    let components = vec![
        TestComponent::new(1, ComponentCategory::Grid),
        TestComponent::new(2, ComponentCategory::Meter),
        TestComponent::new(3, ComponentCategory::Meter),
        TestComponent::new(5, ComponentCategory::Meter),
    ];
    let connections = vec![
        TestConnection::new(1, 2),
        TestConnection::new(2, 3),
        TestConnection::new(3, 2),
    ];
    assert!(ComponentGraph::try_new(components, connections, default_config())
        .is_err_and(|e| e == Error::invalid_graph("Cycle detected: 2 -> 3 -> 2")));
}

#[test]
fn find_all_stops_below_matches_unless_asked() {
    let (components, connections) = roles_nodes_and_edges();
    let graph = ComponentGraph::try_new(components, connections, default_config()).unwrap();
    assert_eq!(graph.find_all(1, NodeFilter::Meters, false).unwrap(), vec![2]);
    assert_eq!(
        graph.find_all(1, NodeFilter::Meters, true).unwrap(),
        vec![2, 3, 6, 9, 12, 14]
    );
    assert_eq!(
        graph.find_all(1, NodeFilter::PvInverters, false).unwrap(),
        vec![10, 11, 16]
    );
}
